use vstd::prelude::*;
use crate::keys::Direction;

pub mod laws;
pub mod tiling;

verus! {

/// A pane's number, `%N` on the command line.
#[derive(Clone, Copy, Debug, PartialEq, Eq, PartialOrd, Ord, Hash, Structural)]
pub struct PaneId(pub u32);

/// How a split arranges its children.
#[derive(Clone, Copy, Debug, PartialEq, Eq, Structural)]
pub enum Axis {
    /// Side by side, divided by vertical separators (`split -h`).
    Horizontal,
    /// Stacked, divided by horizontal separators (`split -v`).
    Vertical,
}

impl Axis {
    pub fn of(direction: Direction) -> (axis: Axis)
        ensures
            axis == axis_of(direction),
    {
        match direction {
            Direction::Left | Direction::Right => Axis::Horizontal,
            Direction::Up | Direction::Down => Axis::Vertical,
        }
    }
}

pub open spec fn axis_of(direction: Direction) -> Axis {
    match direction {
        Direction::Left | Direction::Right => Axis::Horizontal,
        Direction::Up | Direction::Down => Axis::Vertical,
    }
}

#[derive(Debug, PartialEq, Eq)]
pub enum Node {
    Pane(PaneId),
    /// Children with their weights; never fewer than two after `normalize`.
    Split { axis: Axis, children: Vec<(u32, Node)> },
}

/// The shape of a layout as a mathematical value: a leaf is a pane, a
/// branch splits along an axis into weighted children.
pub enum Tree {
    Leaf(PaneId),
    Branch(Axis, Seq<(u32, Tree)>),
}

pub open spec fn node_view(n: Node) -> Tree
    decreases n, 0int,
{
    match n {
        Node::Pane(p) => Tree::Leaf(p),
        Node::Split { axis, children } => {
            proof {
                assert(decreases_to!(n => children@));
            }
            Tree::Branch(axis, children_view(children@))
        },
    }
}

pub open spec fn children_view(cs: Seq<(u32, Node)>) -> Seq<(u32, Tree)>
    decreases cs, 1int,
{
    if cs.len() == 0 {
        Seq::empty()
    } else {
        seq![(cs[0].0, node_view(cs[0].1))] + children_view(cs.drop_first())
    }
}

impl View for Node {
    type V = Tree;

    open spec fn view(&self) -> Tree {
        node_view(*self)
    }
}

impl Clone for Node {
    fn clone(&self) -> (copy: Node)
        ensures
            copy@ == self@,
        decreases self,
    {
        match self {
            Node::Pane(p) => Node::Pane(*p),
            Node::Split { axis, children } => {
                proof {
                    lemma_children_view(children@);
                }
                let mut copies: Vec<(u32, Node)> = Vec::new();
                let mut i: usize = 0;
                while i < children.len()
                    invariant
                        0 <= i <= children.len(),
                        self is Split,
                        self->children == *children,
                        copies.len() == i,
                        forall|j: int| 0 <= j < i ==> (#[trigger] copies@[j]).0 == children@[j].0
                            && node_view(copies@[j].1) == node_view(children@[j].1),
                    decreases children.len() - i,
                {
                    proof {
                        let c = children@[i as int];
                        assert(decreases_to!(*self => self->children));
                        assert(decreases_to!(self->children => children@));
                        assert(decreases_to!(children@ => c));
                        assert(decreases_to!(c => c.1));
                    }
                    let child = children[i].1.clone();
                    copies.push((children[i].0, child));
                    i += 1;
                }
                proof {
                    lemma_children_view(copies@);
                }
                assert(children_view(copies@) =~= children_view(children@));
                Node::Split { axis: *axis, children: copies }
            },
        }
    }
}

pub proof fn lemma_children_view(cs: Seq<(u32, Node)>)
    ensures
        children_view(cs).len() == cs.len(),
        forall|i: int|
            0 <= i < cs.len() ==> #[trigger] children_view(cs)[i] == (cs[i].0, node_view(cs[i].1)),
    decreases cs.len(),
{
    if cs.len() > 0 {
        lemma_children_view(cs.drop_first());
        assert forall|i: int| 0 <= i < cs.len() implies #[trigger] children_view(cs)[i] == (
            cs[i].0,
            node_view(cs[i].1),
        ) by {
            if i > 0 {
                assert(cs.drop_first()[i - 1] == cs[i]);
            }
        }
    }
}

/// Every pane of a tree, in tree order.
pub open spec fn panes_of(t: Tree) -> Seq<PaneId>
    decreases t, 0int,
{
    match t {
        Tree::Leaf(p) => seq![p],
        Tree::Branch(_, children) => children_panes(children),
    }
}

/// Every pane of a sequence of weighted children, in order.
pub open spec fn children_panes(cs: Seq<(u32, Tree)>) -> Seq<PaneId>
    decreases cs, 1int,
{
    if cs.len() == 0 {
        Seq::empty()
    } else {
        panes_of(cs[0].1) + children_panes(cs.drop_first())
    }
}

/// `t` with the first occurrence of `old`, in tree order, renamed `new`.
pub open spec fn replace_tree(t: Tree, from: PaneId, to: PaneId) -> Tree
    decreases t, 0int,
{
    match t {
        Tree::Leaf(p) => if p == from { Tree::Leaf(to) } else { t },
        Tree::Branch(axis, children) => Tree::Branch(axis, replace_children(children, from, to)),
    }
}

pub open spec fn replace_children(cs: Seq<(u32, Tree)>, from: PaneId, to: PaneId) -> Seq<(u32, Tree)>
    decreases cs, 1int,
{
    if cs.len() == 0 {
        cs
    } else if panes_of(cs[0].1).contains(from) {
        seq![(cs[0].0, replace_tree(cs[0].1, from, to))] + cs.drop_first()
    } else {
        seq![cs[0]] + replace_children(cs.drop_first(), from, to)
    }
}


pub proof fn lemma_replace_absent(t: Tree, from: PaneId, to: PaneId)
    requires
        !panes_of(t).contains(from),
    ensures
        replace_tree(t, from, to) == t,
    decreases t, 0int,
{
    match t {
        Tree::Leaf(p) => {
            assert(panes_of(t)[0] == p);
        },
        Tree::Branch(axis, cs) => {
            lemma_replace_children_absent(cs, from, to);
        },
    }
}

pub proof fn lemma_replace_children_absent(cs: Seq<(u32, Tree)>, from: PaneId, to: PaneId)
    requires
        !children_panes(cs).contains(from),
    ensures
        replace_children(cs, from, to) == cs,
    decreases cs, 1int,
{
    if cs.len() > 0 {
        assert(!panes_of(cs[0].1).contains(from)) by {
            if panes_of(cs[0].1).contains(from) {
                let k = choose|k: int| 0 <= k < panes_of(cs[0].1).len() && panes_of(cs[0].1)[k] == from;
                assert(children_panes(cs)[k] == from);
            }
        }
        assert(!children_panes(cs.drop_first()).contains(from)) by {
            if children_panes(cs.drop_first()).contains(from) {
                let k = choose|k: int| 0 <= k < children_panes(cs.drop_first()).len() && children_panes(cs.drop_first())[k] == from;
                assert(children_panes(cs)[k + panes_of(cs[0].1).len()] == from);
            }
        }
        lemma_replace_children_absent(cs.drop_first(), from, to);
        assert(seq![cs[0]] + cs.drop_first() =~= cs);
    }
}

pub proof fn lemma_children_panes_contains(cs: Seq<(u32, Tree)>, p: PaneId)
    ensures
        children_panes(cs).contains(p) <==> exists|j: int|
            0 <= j < cs.len() && #[trigger] panes_of(cs[j].1).contains(p),
    decreases cs.len(),
{
    if cs.len() > 0 {
        lemma_children_panes_contains(cs.drop_first(), p);
        let head = panes_of(cs[0].1);
        let tail = children_panes(cs.drop_first());
        assert(children_panes(cs) == head + tail);
        if children_panes(cs).contains(p) {
            let k = choose|k: int| 0 <= k < children_panes(cs).len() && children_panes(cs)[k] == p;
            if k < head.len() {
                assert(head[k] == p);
                assert(panes_of(cs[0].1).contains(p));
            } else {
                assert(tail[k - head.len()] == p);
                let j = choose|j: int| 0 <= j < cs.drop_first().len() && #[trigger] panes_of(cs.drop_first()[j].1).contains(p);
                assert(cs.drop_first()[j] == cs[j + 1]);
                assert(panes_of(cs[j + 1].1).contains(p));
            }
        }
        if exists|j: int| 0 <= j < cs.len() && #[trigger] panes_of(cs[j].1).contains(p) {
            let j = choose|j: int| 0 <= j < cs.len() && #[trigger] panes_of(cs[j].1).contains(p);
            if j == 0 {
                let k = choose|k: int| 0 <= k < head.len() && head[k] == p;
                assert((head + tail)[k] == p);
            } else {
                assert(cs.drop_first()[j - 1] == cs[j]);
                assert(panes_of(cs.drop_first()[j - 1].1).contains(p));
                let k = choose|k: int| 0 <= k < tail.len() && tail[k] == p;
                assert((head + tail)[head.len() + k] == p);
            }
        }
    }
}

pub proof fn lemma_children_view_update(cs: Seq<(u32, Node)>, i: int, x: (u32, Node))
    requires
        0 <= i < cs.len(),
    ensures
        children_view(cs.update(i, x)) == children_view(cs).update(i, (x.0, node_view(x.1))),
{
    lemma_children_view(cs);
    lemma_children_view(cs.update(i, x));
    assert(children_view(cs.update(i, x)) =~= children_view(cs).update(i, (x.0, node_view(x.1))));
}

pub proof fn lemma_replace_children_prefix(cs: Seq<(u32, Tree)>, i: int, from: PaneId, to: PaneId)
    requires
        0 <= i < cs.len(),
        forall|j: int| 0 <= j < i ==> !#[trigger] panes_of(cs[j].1).contains(from),
        panes_of(cs[i].1).contains(from),
    ensures
        replace_children(cs, from, to) == cs.update(i, (cs[i].0, replace_tree(cs[i].1, from, to))),
    decreases i,
{
    if i == 0 {
        assert(seq![(cs[0].0, replace_tree(cs[0].1, from, to))] + cs.drop_first() =~= cs.update(0, (cs[0].0, replace_tree(cs[0].1, from, to))));
    } else {
        assert(!panes_of(cs[0].1).contains(from));
        let rest = cs.drop_first();
        assert forall|j: int| 0 <= j < i - 1 implies !#[trigger] panes_of(rest[j].1).contains(from) by {
            assert(rest[j] == cs[j + 1]);
        }
        assert(rest[i - 1] == cs[i]);
        lemma_replace_children_prefix(rest, i - 1, from, to);
        assert(seq![cs[0]] + rest.update(i - 1, (cs[i].0, replace_tree(cs[i].1, from, to))) =~= cs.update(i, (cs[i].0, replace_tree(cs[i].1, from, to))));
    }
}

impl Node {
    /// Every pane, in tree order.
    pub fn panes(&self) -> (out: Vec<PaneId>)
        ensures
            out@ == panes_of(self@),
    {
        let mut out = Vec::new();
        self.collect(&mut out);
        assert(out@ =~= panes_of(self@));
        out
    }

    fn collect(&self, out: &mut Vec<PaneId>)
        ensures
            final(out)@ == old(out)@ + panes_of(self@),
        decreases self,
    {
        match self {
            Node::Pane(p) => {
                out.push(*p);
            },
            Node::Split { children, .. } => {
                proof {
                    lemma_children_view(children@);
                }
                let ghost cv = children_view(children@);
                let ghost start = out@;
                let mut i: usize = 0;
                assert(cv.skip(0) =~= cv);
                while i < children.len()
                    invariant
                        0 <= i <= children.len(),
                        self is Split,
                        self->children == *children,
                        cv == children_view(children@),
                        cv.len() == children@.len(),
                        forall|j: int| 0 <= j < cv.len() ==> #[trigger] cv[j] == (children@[j].0, node_view(children@[j].1)),
                        start + children_panes(cv) == out@ + children_panes(cv.skip(i as int)),
                    decreases children.len() - i,
                {
                    assert(cv.skip(i as int).drop_first() =~= cv.skip(i + 1));
                    proof {
                        let c = children@[i as int];
                        assert(decreases_to!(*self => self->children));
                        assert(decreases_to!(self->children => children@));
                        assert(decreases_to!(children@ => c));
                        assert(decreases_to!(c => c.1));
                        assert(decreases_to!(*self => c.1));
                    }
                    children[i].1.collect(out);
                    i += 1;
                }
                assert(cv.skip(i as int) =~= Seq::<(u32, Tree)>::empty());
                assert(cv.skip(0) =~= cv);
            },
        }
    }
}


impl Node {
    pub fn contains(&self, pane: PaneId) -> (found: bool)
        ensures
            found == panes_of(self@).contains(pane),
        decreases self,
    {
        match self {
            Node::Pane(p) => {
                proof {
                    assert(panes_of(self@)[0] == *p);
                }
                p.0 == pane.0
            },
            Node::Split { children, .. } => {
                proof {
                    lemma_children_view(children@);
                    lemma_children_panes_contains(children_view(children@), pane);
                }
                let ghost cv = children_view(children@);
                let mut i: usize = 0;
                while i < children.len()
                    invariant
                        0 <= i <= children.len(),
                        self is Split,
                        self->children == *children,
                        cv == children_view(children@),
                        cv.len() == children@.len(),
                        forall|j: int| 0 <= j < cv.len() ==> #[trigger] cv[j] == (children@[j].0, node_view(children@[j].1)),
                        forall|j: int| 0 <= j < i ==> !#[trigger] panes_of(cv[j].1).contains(pane),
                    decreases children.len() - i,
                {
                    proof {
                        let c = children@[i as int];
                        assert(decreases_to!(*self => self->children));
                        assert(decreases_to!(self->children => children@));
                        assert(decreases_to!(children@ => c));
                        assert(decreases_to!(c => c.1));
                    }
                    if children[i].1.contains(pane) {
                        assert(panes_of(cv[i as int].1).contains(pane));
                        proof {
                            lemma_children_panes_contains(cv, pane);
                        }
                        return true;
                    }
                    i += 1;
                }
                false
            },
        }
    }

    /// Replaces `from` with `to` wherever it is first found.
    pub fn replace(&mut self, from: PaneId, to: PaneId) -> (found: bool)
        ensures
            found == panes_of(old(self)@).contains(from),
            final(self)@ == replace_tree(old(self)@, from, to),
    {
        let mut node = Node::Pane(to);
        std::mem::swap(self, &mut node);
        let (result, found) = Node::replaced(node, from, to);
        *self = result;
        found
    }

    fn replaced(node: Node, from: PaneId, to: PaneId) -> (res: (Node, bool))
        ensures
            res.1 == panes_of(node@).contains(from),
            res.0@ == replace_tree(node@, from, to),
        decreases node,
    {
        match node {
            Node::Pane(p) => {
                proof {
                    assert(panes_of(node@)[0] == p);
                }
                if p.0 == from.0 {
                    (Node::Pane(to), true)
                } else {
                    (Node::Pane(p), false)
                }
            },
            Node::Split { axis, children } => {
                let ghost initial = children@;
                proof {
                    lemma_children_view(children@);
                    lemma_children_panes_contains(children_view(children@), from);
                }
                let ghost cv = children_view(children@);
                let mut children = children;
                let mut i: usize = 0;
                while i < children.len()
                    invariant
                        0 <= i <= children.len(),
                        children@.len() == initial.len(),
                        forall|j: int| i <= j < initial.len() ==> #[trigger] children@[j] == initial[j],
                        children_view(children@) == cv,
                        node == (Node::Split { axis, children: node->children }),
                        node->children@ == initial,
                        cv == children_view(initial),
                        cv.len() == initial.len(),
                        forall|j: int| 0 <= j < cv.len() ==> #[trigger] cv[j] == (initial[j].0, node_view(initial[j].1)),
                        forall|j: int| 0 <= j < i ==> !#[trigger] panes_of(cv[j].1).contains(from),
                    decreases children.len() - i,
                {
                    proof {
                        let c = initial[i as int];
                        assert(decreases_to!(node => node->children));
                        assert(decreases_to!(node->children => initial));
                        assert(decreases_to!(initial => c));
                        assert(decreases_to!(c => c.1));
                    }
                    let ghost before = children@;
                    let (w, c) = children.remove(i);
                    assert(c == initial[i as int].1);
                    let (c, found) = Node::replaced(c, from, to);
                    children.insert(i, (w, c));
                    assert(children@ =~= before.update(i as int, (w, c)));
                    proof {
                        lemma_children_view_update(before, i as int, (w, c));
                    }
                    if found {
                        proof {
                            lemma_replace_children_prefix(cv, i as int, from, to);
                            lemma_children_panes_contains(cv, from);
                        }
                        return (Node::Split { axis, children }, true);
                    }
                    proof {
                        lemma_replace_absent(cv[i as int].1, from, to);
                        assert(cv.update(i as int, (w, node_view(c))) =~= cv);
                    }
                    i += 1;
                }
                proof {
                    lemma_replace_children_absent(cv, from, to);
                }
                (Node::Split { axis, children }, false)
            },
        }
    }
}


/// The weight a new child starts with.
pub const WEIGHT: u32 = 1000;
/// The smallest pane, in each dimension.
pub const MIN: u16 = 2;

/// The index of the first child that is the pane `target` itself, or -1.
pub open spec fn leaf_position(cs: Seq<(u32, Tree)>, target: PaneId) -> int
    decreases cs.len(),
{
    if cs.len() == 0 {
        -1
    } else if cs[0].1 == Tree::Leaf(target) {
        0
    } else {
        let r = leaf_position(cs.drop_first(), target);
        if r < 0 { -1 } else { r + 1 }
    }
}

pub proof fn lemma_leaf_position(cs: Seq<(u32, Tree)>, target: PaneId)
    ensures
        -1 <= leaf_position(cs, target) < cs.len(),
        leaf_position(cs, target) >= 0 ==> cs[leaf_position(cs, target)].1 == Tree::Leaf(target),
        leaf_position(cs, target) >= 0 ==> forall|j: int| 0 <= j < leaf_position(cs, target) ==> cs[j].1 != Tree::Leaf(target),
        leaf_position(cs, target) < 0 ==> forall|j: int| 0 <= j < cs.len() ==> cs[j].1 != Tree::Leaf(target),
    decreases cs.len(),
{
    if cs.len() > 0 {
        lemma_leaf_position(cs.drop_first(), target);
        assert forall|j: int| 1 <= j < cs.len() implies cs[j] == cs.drop_first()[j - 1] by {}
    }
}

/// The weight a child keeps, and the weight of the new sibling taken from it.
pub open spec fn halved(weight: u32) -> (u32, u32) {
    let half = if weight / 2 >= 1 { weight / 2 } else { 1 };
    let rest = if weight >= half { (weight - half) as u32 } else { 0u32 };
    (if rest >= 1 { rest } else { 1 }, half)
}

/// `t` with `new` added beside the first `target`, along `axis`, after it or
/// before it; and whether `target` was found.
pub open spec fn insert_tree(t: Tree, target: PaneId, new: PaneId, axis: Axis, after: bool) -> Tree
    decreases t, 0int,
{
    match t {
        Tree::Leaf(p) => if p == target {
            let pair = if after {
                seq![(WEIGHT, Tree::Leaf(target)), (WEIGHT, Tree::Leaf(new))]
            } else {
                seq![(WEIGHT, Tree::Leaf(new)), (WEIGHT, Tree::Leaf(target))]
            };
            Tree::Branch(axis, pair)
        } else {
            t
        },
        Tree::Branch(own, cs) => {
            let index = leaf_position(cs, target);
            if index >= 0 && own == axis {
                let (kept, half) = halved(cs[index].0);
                let at = if after { index + 1 } else { index };
                Tree::Branch(own, cs.update(index, (kept, cs[index].1)).insert(at, (half, Tree::Leaf(new))))
            } else {
                Tree::Branch(own, insert_children(cs, target, new, axis, after))
            }
        },
    }
}

pub open spec fn insert_children(cs: Seq<(u32, Tree)>, target: PaneId, new: PaneId, axis: Axis, after: bool) -> Seq<(u32, Tree)>
    decreases cs, 1int,
{
    if cs.len() == 0 {
        cs
    } else if panes_of(cs[0].1).contains(target) {
        seq![(cs[0].0, insert_tree(cs[0].1, target, new, axis, after))] + cs.drop_first()
    } else {
        seq![cs[0]] + insert_children(cs.drop_first(), target, new, axis, after)
    }
}


pub proof fn lemma_children_view_insert(cs: Seq<(u32, Node)>, i: int, x: (u32, Node))
    requires
        0 <= i <= cs.len(),
    ensures
        children_view(cs.insert(i, x)) == children_view(cs).insert(i, (x.0, node_view(x.1))),
{
    lemma_children_view(cs);
    lemma_children_view(cs.insert(i, x));
    assert(children_view(cs.insert(i, x)) =~= children_view(cs).insert(i, (x.0, node_view(x.1))));
}

pub proof fn lemma_insert_children_prefix(cs: Seq<(u32, Tree)>, i: int, target: PaneId, new: PaneId, axis: Axis, after: bool)
    requires
        0 <= i < cs.len(),
        forall|j: int| 0 <= j < i ==> !#[trigger] panes_of(cs[j].1).contains(target),
        panes_of(cs[i].1).contains(target),
    ensures
        insert_children(cs, target, new, axis, after) == cs.update(i, (cs[i].0, insert_tree(cs[i].1, target, new, axis, after))),
    decreases i,
{
    if i == 0 {
        assert(seq![(cs[0].0, insert_tree(cs[0].1, target, new, axis, after))] + cs.drop_first() =~= cs.update(0, (cs[0].0, insert_tree(cs[0].1, target, new, axis, after))));
    } else {
        let rest = cs.drop_first();
        assert forall|j: int| 0 <= j < i - 1 implies !#[trigger] panes_of(rest[j].1).contains(target) by {
            assert(rest[j] == cs[j + 1]);
        }
        assert(rest[i - 1] == cs[i]);
        lemma_insert_children_prefix(rest, i - 1, target, new, axis, after);
        assert(seq![cs[0]] + rest.update(i - 1, (cs[i].0, insert_tree(cs[i].1, target, new, axis, after))) =~= cs.update(i, (cs[i].0, insert_tree(cs[i].1, target, new, axis, after))));
    }
}

pub proof fn lemma_insert_children_absent(cs: Seq<(u32, Tree)>, target: PaneId, new: PaneId, axis: Axis, after: bool)
    requires
        !children_panes(cs).contains(target),
    ensures
        insert_children(cs, target, new, axis, after) == cs,
    decreases cs.len(),
{
    if cs.len() > 0 {
        lemma_children_panes_contains(cs, target);
        lemma_children_panes_contains(cs.drop_first(), target);
        assert forall|j: int| 0 <= j < cs.drop_first().len() implies !#[trigger] panes_of(cs.drop_first()[j].1).contains(target) by {
            assert(cs.drop_first()[j] == cs[j + 1]);
        }
        lemma_insert_children_absent(cs.drop_first(), target, new, axis, after);
        assert(seq![cs[0]] + cs.drop_first() =~= cs);
    }
}

/// Whether `node` is the pane `p` itself.
fn is_pane(node: &Node, p: PaneId) -> (r: bool)
    ensures
        r == (node@ == Tree::Leaf(p)),
{
    match node {
        Node::Pane(q) => q.0 == p.0,
        Node::Split { .. } => false,
    }
}

impl Node {
    /// `node` with `new` added beside `target`; and whether `target` was found.
    fn inserted(node: Node, target: PaneId, new: PaneId, axis: Axis, after: bool) -> (res: (Node, bool))
        ensures
            res.1 == panes_of(node@).contains(target),
            res.0@ == insert_tree(node@, target, new, axis, after),
        decreases node,
    {
        match node {
            Node::Pane(p) => {
                proof {
                    assert(panes_of(node@)[0] == p);
                }
                if p.0 == target.0 {
                    let mut pair = Vec::new();
                    if after {
                        pair.push((WEIGHT, Node::Pane(target)));
                        pair.push((WEIGHT, Node::Pane(new)));
                    } else {
                        pair.push((WEIGHT, Node::Pane(new)));
                        pair.push((WEIGHT, Node::Pane(target)));
                    }
                    let res = Node::Split { axis, children: pair };
                    proof {
                        lemma_children_view(pair@);
                        assert(children_view(pair@) =~= (if after {
                            seq![(WEIGHT, Tree::Leaf(target)), (WEIGHT, Tree::Leaf(new))]
                        } else {
                            seq![(WEIGHT, Tree::Leaf(new)), (WEIGHT, Tree::Leaf(target))]
                        }));
                    }
                    (res, true)
                } else {
                    (Node::Pane(p), false)
                }
            },
            Node::Split { axis: own, children } => {
                let ghost initial = children@;
                proof {
                    lemma_children_view(children@);
                    lemma_leaf_position(children_view(children@), target);
                }
                let ghost cv = children_view(children@);
                let mut children = children;
                // The first child that is `target` itself.
                let mut index: usize = 0;
                while index < children.len() && !is_pane(&children[index].1, target)
                    invariant
                        0 <= index <= children.len(),
                        children@ == initial,
                        cv == children_view(initial),
                        cv.len() == initial.len(),
                        forall|j: int| 0 <= j < cv.len() ==> #[trigger] cv[j] == (initial[j].0, node_view(initial[j].1)),
                        forall|j: int| 0 <= j < index ==> cv[j].1 != Tree::Leaf(target),
                    decreases children.len() - index,
                {
                    index += 1;
                }
                if index < children.len() && own == axis {
                    assert(cv[index as int].1 == Tree::Leaf(target));
                    assert(leaf_position(cv, target) == index as int);
                    let (weight, child) = children.remove(index);
                    let half: u32 = if weight / 2 >= 1 { weight / 2 } else { 1 };
                    let rest: u32 = if weight >= half { weight - half } else { 0 };
                    let kept: u32 = if rest >= 1 { rest } else { 1 };
                    children.insert(index, (kept, child));
                    let at = if after { index + 1 } else { index };
                    let ghost mid = children@;
                    children.insert(at, (half, Node::Pane(new)));
                    proof {
                        assert(mid =~= initial.update(index as int, (kept, child)));
                        lemma_children_view_update(initial, index as int, (kept, child));
                        lemma_children_view_insert(mid, at as int, (half, Node::Pane(new)));
                        lemma_children_panes_contains(cv, target);
                        assert(panes_of(cv[index as int].1)[0] == target);
                        assert(panes_of(cv[index as int].1).contains(target));
                    }
                    return (Node::Split { axis: own, children }, true);
                }
                assert(leaf_position(cv, target) < 0 || own != axis);
                proof {
                    lemma_children_panes_contains(cv, target);
                }
                let mut i: usize = 0;
                while i < children.len()
                    invariant
                        0 <= i <= children.len(),
                        children@.len() == initial.len(),
                        forall|j: int| i <= j < initial.len() ==> #[trigger] children@[j] == initial[j],
                        children_view(children@) == cv,
                        node == (Node::Split { axis: own, children: node->children }),
                        node->children@ == initial,
                        cv == children_view(initial),
                        cv.len() == initial.len(),
                        forall|j: int| 0 <= j < cv.len() ==> #[trigger] cv[j] == (initial[j].0, node_view(initial[j].1)),
                        forall|j: int| 0 <= j < i ==> !#[trigger] panes_of(cv[j].1).contains(target),
                        leaf_position(cv, target) < 0 || own != axis,
                        children_panes(cv).contains(target) <==> exists|j: int| 0 <= j < cv.len() && #[trigger] panes_of(cv[j].1).contains(target),
                    decreases children.len() - i,
                {
                    proof {
                        let c = initial[i as int];
                        assert(decreases_to!(node => node->children));
                        assert(decreases_to!(node->children => initial));
                        assert(decreases_to!(initial => c));
                        assert(decreases_to!(c => c.1));
                    }
                    let ghost before = children@;
                    let (w, c) = children.remove(i);
                    assert(c == initial[i as int].1);
                    let (c, found) = Node::inserted(c, target, new, axis, after);
                    children.insert(i, (w, c));
                    assert(children@ =~= before.update(i as int, (w, c)));
                    proof {
                        lemma_children_view_update(before, i as int, (w, c));
                    }
                    if found {
                        proof {
                            lemma_insert_children_prefix(cv, i as int, target, new, axis, after);
                        }
                        return (Node::Split { axis: own, children }, true);
                    }
                    proof {
                        lemma_insert_absent(cv[i as int].1, target, new, axis, after);
                        assert(cv.update(i as int, (w, node_view(c))) =~= cv);
                    }
                    i += 1;
                }
                proof {
                    lemma_insert_children_absent(cv, target, new, axis, after);
                }
                (Node::Split { axis: own, children }, false)
            },
        }
    }
}

pub proof fn lemma_insert_absent(t: Tree, target: PaneId, new: PaneId, axis: Axis, after: bool)
    requires
        !panes_of(t).contains(target),
    ensures
        insert_tree(t, target, new, axis, after) == t,
    decreases t,
{
    match t {
        Tree::Leaf(p) => {
            assert(panes_of(t)[0] == p);
        },
        Tree::Branch(own, cs) => {
            lemma_leaf_position(cs, target);
            lemma_children_panes_contains(cs, target);
            if leaf_position(cs, target) >= 0 {
                let k = leaf_position(cs, target);
                assert(panes_of(cs[k].1)[0] == target);
                assert(panes_of(cs[k].1).contains(target));
            }
            lemma_insert_children_absent(cs, target, new, axis, after);
        },
    }
}


/// The total weight of a sequence of children.
pub open spec fn weight_sum(cs: Seq<(u32, Tree)>) -> int
    decreases cs.len(),
{
    if cs.len() == 0 {
        0
    } else {
        weight_sum(cs.drop_last()) + cs.last().0
    }
}

pub proof fn lemma_weight_sum_bound(cs: Seq<(u32, Tree)>)
    ensures
        0 <= weight_sum(cs) <= cs.len() * 0xffff_ffff,
    decreases cs.len(),
{
    if cs.len() > 0 {
        lemma_weight_sum_bound(cs.drop_last());
    }
}

/// The weight a grandchild gets when its split, of weight `weight` and total
/// child weight `total`, merges into its parent: its share of `weight`.
pub open spec fn scaled(weight: u32, w: u32, total: int) -> u32 {
    let t = if total >= 1 { total } else { 1 };
    let s = (weight as int * w as int) / t;
    let s = if s >= 1 { s } else { 1 };
    if s > 0xffff_ffff { 0xffff_ffffu32 } else { s as u32 }
}

pub open spec fn scale_children(gs: Seq<(u32, Tree)>, weight: u32) -> Seq<(u32, Tree)> {
    Seq::new(gs.len(), |i: int| (scaled(weight, gs[i].0, weight_sum(gs)), gs[i].1))
}

/// What one normalized child contributes to its parent along `axis`: nothing
/// if it is an empty split, its own children rescaled if it splits along the
/// same axis, else itself.
pub open spec fn merged_child(c: (u32, Tree), axis: Axis) -> Seq<(u32, Tree)> {
    match c.1 {
        Tree::Branch(inner, gs) => if gs.len() == 0 {
            Seq::empty()
        } else if inner == axis {
            scale_children(gs, c.0)
        } else {
            seq![c]
        },
        Tree::Leaf(_) => seq![c],
    }
}

pub open spec fn merge_children(cs: Seq<(u32, Tree)>, axis: Axis) -> Seq<(u32, Tree)>
    decreases cs.len(),
{
    if cs.len() == 0 {
        Seq::empty()
    } else {
        merged_child(cs[0], axis) + merge_children(cs.drop_first(), axis)
    }
}

/// A tree with one-child splits collapsed, empty splits dropped and nested
/// splits along one axis merged.
pub open spec fn normal_form(t: Tree) -> Tree
    decreases t, 0int,
{
    match t {
        Tree::Leaf(_) => t,
        Tree::Branch(axis, cs) => {
            let merged = merge_children(normal_children(cs), axis);
            if merged.len() == 1 {
                merged[0].1
            } else {
                Tree::Branch(axis, merged)
            }
        },
    }
}

pub open spec fn normal_children(cs: Seq<(u32, Tree)>) -> Seq<(u32, Tree)>
    decreases cs, 1int,
{
    if cs.len() == 0 {
        cs
    } else {
        seq![(cs[0].0, normal_form(cs[0].1))] + normal_children(cs.drop_first())
    }
}

pub proof fn lemma_children_view_push(cs: Seq<(u32, Node)>, x: (u32, Node))
    ensures
        children_view(cs.push(x)) == children_view(cs).push((x.0, node_view(x.1))),
{
    lemma_children_view(cs);
    lemma_children_view(cs.push(x));
    assert(children_view(cs.push(x)) =~= children_view(cs).push((x.0, node_view(x.1))));
}

/// Collapses one-child splits and merges a child split along its parent's
/// axis into the parent, scaling its weights to the share it had.
pub fn normalize(node: &mut Node)
    ensures
        final(node)@ == normal_form(old(node)@),
{
    let mut taken = Node::Pane(PaneId(0));
    std::mem::swap(node, &mut taken);
    *node = Node::normalized(taken);
}

impl Node {
    fn normalized(node: Node) -> (res: Node)
        ensures
            res@ == normal_form(node@),
        decreases node,
    {
        match node {
            Node::Pane(p) => Node::Pane(p),
            Node::Split { axis, children } => {
                let ghost initial = children@;
                proof {
                    lemma_children_view(initial);
                }
                let ghost cv = children_view(initial);
                let count = children.len();
                assert(initial.len() == count);
                let mut rest = children;
                let mut merged: Vec<(u32, Node)> = Vec::new();
                let mut k: usize = 0;
                assert(cv.skip(0) =~= cv);
                assert(children_view(merged@) =~= Seq::<(u32, Tree)>::empty());
                while rest.len() > 0
                    invariant
                        0 <= k <= initial.len(),
                        initial.len() <= usize::MAX,
                        rest@ == initial.skip(k as int),
                        node == (Node::Split { axis, children: node->children }),
                        node->children@ == initial,
                        cv == children_view(initial),
                        cv.len() == initial.len(),
                        forall|j: int| 0 <= j < cv.len() ==> #[trigger] cv[j] == (initial[j].0, node_view(initial[j].1)),
                        merge_children(normal_children(cv), axis) == children_view(merged@) + merge_children(normal_children(cv.skip(k as int)), axis),
                    decreases rest.len(),
                {
                    proof {
                        let c = initial[k as int];
                        assert(rest@[0] == c);
                        assert(decreases_to!(node => node->children));
                        assert(decreases_to!(node->children => initial));
                        assert(decreases_to!(initial => c));
                        assert(decreases_to!(c => c.1));
                    }
                    assert(rest@.len() == initial.len() - k);
                    let (weight, child) = rest.remove(0);
                    assert(rest@ =~= initial.skip(k + 1));
                    let child = Node::normalized(child);
                    let ghost tail = cv.skip(k + 1);
                    let ghost entry = (weight, node_view(child));
                    proof {
                        assert(cv.skip(k as int).drop_first() =~= tail);
                        assert(cv.skip(k as int)[0] == cv[k as int]);
                        let nc = normal_children(cv.skip(k as int));
                        assert(nc.drop_first() == normal_children(tail));
                        assert(nc[0] == entry);
                        assert(merge_children(nc, axis) == merged_child(entry, axis) + merge_children(normal_children(tail), axis));
                    }
                    let ghost before = children_view(merged@);
                    match child {
                        Node::Pane(p) => {
                            let ghost m0 = merged@;
                            merged.push((weight, Node::Pane(p)));
                            proof {
                                lemma_children_view_push(m0, (weight, Node::Pane(p)));
                                assert(merged_child(entry, axis) =~= seq![entry]);
                            }
                        },
                        Node::Split { axis: inner, children: grand } => {
                            if grand.len() == 0 {
                                proof {
                                    lemma_children_view(grand@);
                                    assert(merged_child(entry, axis) =~= Seq::<(u32, Tree)>::empty());
                                }
                            } else if inner == axis {
                                proof {
                                    lemma_children_view(grand@);
                                }
                                Node::merge_scaled(&mut merged, weight, grand);
                            } else {
                                let ghost m0 = merged@;
                                let ghost gv = grand@;
                                merged.push((weight, Node::Split { axis: inner, children: grand }));
                                proof {
                                    lemma_children_view(gv);
                                    lemma_children_view_push(m0, (weight, Node::Split { axis: inner, children: grand }));
                                    assert(merged_child(entry, axis) =~= seq![entry]);
                                }
                            }
                        },
                    }
                    proof {
                        assert(children_view(merged@) == before + merged_child(entry, axis));
                        assert(merge_children(normal_children(cv), axis) =~= children_view(merged@) + merge_children(normal_children(tail), axis));
                    }
                    k += 1;
                }
                proof {
                    assert(k == initial.len());
                    assert(cv.skip(k as int) =~= Seq::<(u32, Tree)>::empty());
                    assert(children_view(merged@) + Seq::<(u32, Tree)>::empty() =~= children_view(merged@));
                    lemma_children_view(merged@);
                }
                if merged.len() == 1 {
                    let (_, only) = merged.pop().unwrap();
                    only
                } else {
                    Node::Split { axis, children: merged }
                }
            },
        }
    }

    /// Appends the children `grand` of a split of weight `weight`, each
    /// with its share of that weight.
    fn merge_scaled(merged: &mut Vec<(u32, Node)>, weight: u32, grand: Vec<(u32, Node)>)
        ensures
            children_view(final(merged)@) == children_view(old(merged)@) + scale_children(children_view(grand@), weight),
    {
        let ghost gv = children_view(grand@);
        proof {
            lemma_children_view(grand@);
        }
        let mut total: u128 = 0;
        let mut j: usize = 0;
        while j < grand.len()
            invariant
                0 <= j <= grand.len(),
                gv == children_view(grand@),
                gv.len() == grand@.len(),
                forall|i: int| 0 <= i < gv.len() ==> #[trigger] gv[i] == (grand@[i].0, node_view(grand@[i].1)),
                total == weight_sum(gv.take(j as int)),
                total <= j * 0xffff_ffff,
            decreases grand.len() - j,
        {
            assert(gv.take(j + 1).drop_last() =~= gv.take(j as int));
            total = total + grand[j].0 as u128;
            j += 1;
        }
        assert(gv.take(j as int) =~= gv);
        let t: u128 = if total >= 1 { total } else { 1 };
        let ghost base = children_view(merged@);
        let ghost target = scale_children(gv, weight);
        assert(gv.len() <= usize::MAX);
        let mut rest = grand;
        let mut i: usize = 0;
        assert(base + target.take(0) =~= base);
        while rest.len() > 0
            invariant
                0 <= i <= gv.len(),
                gv.len() <= usize::MAX,
                rest@ == grand@.skip(i as int),
                gv.len() == grand@.len(),
                forall|m: int| 0 <= m < gv.len() ==> #[trigger] gv[m] == (grand@[m].0, node_view(grand@[m].1)),
                total == weight_sum(gv),
                t == (if total >= 1 { total } else { 1 }),
                target == scale_children(gv, weight),
                children_view(merged@) == base + target.take(i as int),
            decreases rest.len(),
        {
            assert(rest@.len() == gv.len() - i);
            assert(rest@[0] == grand@[i as int]);
            let (w, g) = rest.remove(0);
            assert(rest@ =~= grand@.skip(i + 1));
            proof {
                assert(weight as int * w as int <= 0xffff_ffff * 0xffff_ffff) by (nonlinear_arith)
                    requires weight <= 0xffff_ffff, w <= 0xffff_ffff;
            }
            let share: u128 = (weight as u128 * w as u128) / t;
            let share: u128 = if share >= 1 { share } else { 1 };
            let share: u32 = if share > 0xffff_ffff { 0xffff_ffff } else { share as u32 };
            let ghost m0 = merged@;
            merged.push((share, g));
            proof {
                lemma_children_view_push(m0, (share, g));
                assert(target[i as int] == (share, node_view(g)));
                assert(base + target.take(i + 1) =~= (base + target.take(i as int)).push(target[i as int]));
            }
            i += 1;
        }
        assert(target.take(i as int) =~= target);
    }
}


/// The tree of an optional root.
pub open spec fn root_view(root: Option<Node>) -> Option<Tree> {
    match root {
        Some(n) => Some(node_view(n)),
        None => None,
    }
}

/// What `split` makes of a layout.
pub open spec fn split_tree(root: Option<Tree>, target: PaneId, new: PaneId, axis: Axis, after: bool) -> Option<Tree> {
    match root {
        None => Some(Tree::Leaf(new)),
        Some(t) => Some(normal_form(insert_tree(t, target, new, axis, after))),
    }
}

/// `t` without the first pane `pane` found below a split.
pub open spec fn remove_from_tree(t: Tree, pane: PaneId) -> Tree
    decreases t, 0int,
{
    match t {
        Tree::Leaf(_) => t,
        Tree::Branch(axis, cs) => {
            let index = leaf_position(cs, pane);
            if index >= 0 {
                Tree::Branch(axis, cs.remove(index))
            } else {
                Tree::Branch(axis, remove_children(cs, pane))
            }
        },
    }
}

pub open spec fn remove_children(cs: Seq<(u32, Tree)>, pane: PaneId) -> Seq<(u32, Tree)>
    decreases cs, 1int,
{
    if cs.len() == 0 {
        cs
    } else if cs[0].1 is Branch && panes_of(cs[0].1).contains(pane) {
        seq![(cs[0].0, remove_from_tree(cs[0].1, pane))] + cs.drop_first()
    } else {
        seq![cs[0]] + remove_children(cs.drop_first(), pane)
    }
}

/// What `remove` makes of a layout.
pub open spec fn remove_tree(root: Option<Tree>, pane: PaneId) -> Option<Tree> {
    match root {
        None => None,
        Some(t) => if t == Tree::Leaf(pane) {
            None
        } else {
            Some(normal_form(remove_from_tree(t, pane)))
        },
    }
}

/// Adds `new` beside `target`, after it or before it, along `axis`. A split
/// already along `axis` takes it as a sibling sharing the target's weight;
/// otherwise the target becomes a new split of the two. An empty tree becomes
/// the new pane alone. False if `target` is not in the tree.
pub fn split(root: &mut Option<Node>, target: PaneId, new: PaneId, axis: Axis, after: bool) -> (done: bool)
    ensures
        root_view(*final(root)) == split_tree(root_view(*old(root)), target, new, axis, after),
        done == match root_view(*old(root)) {
            None => true,
            Some(t) => panes_of(t).contains(target),
        },
{
    let mut taken: Option<Node> = None;
    std::mem::swap(root, &mut taken);
    match taken {
        None => {
            *root = Some(Node::Pane(new));
            true
        },
        Some(node) => {
            let (node, done) = Node::inserted(node, target, new, axis, after);
            *root = Some(Node::normalized(node));
            done
        },
    }
}

pub proof fn lemma_remove_children_prefix(cs: Seq<(u32, Tree)>, i: int, pane: PaneId)
    requires
        0 <= i < cs.len(),
        forall|j: int| 0 <= j < i ==> !(#[trigger] cs[j].1 is Branch && panes_of(cs[j].1).contains(pane)),
        cs[i].1 is Branch && panes_of(cs[i].1).contains(pane),
    ensures
        remove_children(cs, pane) == cs.update(i, (cs[i].0, remove_from_tree(cs[i].1, pane))),
    decreases i,
{
    if i == 0 {
        assert(seq![(cs[0].0, remove_from_tree(cs[0].1, pane))] + cs.drop_first() =~= cs.update(0, (cs[0].0, remove_from_tree(cs[0].1, pane))));
    } else {
        let rest = cs.drop_first();
        assert(!(cs[0].1 is Branch && panes_of(cs[0].1).contains(pane)));
        assert forall|j: int| 0 <= j < i - 1 implies !(#[trigger] rest[j].1 is Branch && panes_of(rest[j].1).contains(pane)) by {
            assert(rest[j] == cs[j + 1]);
        }
        assert(rest[i - 1] == cs[i]);
        lemma_remove_children_prefix(rest, i - 1, pane);
        assert(seq![cs[0]] + rest.update(i - 1, (cs[i].0, remove_from_tree(cs[i].1, pane))) =~= cs.update(i, (cs[i].0, remove_from_tree(cs[i].1, pane))));
    }
}

pub proof fn lemma_remove_children_none(cs: Seq<(u32, Tree)>, pane: PaneId)
    requires
        forall|j: int| 0 <= j < cs.len() ==> !(#[trigger] cs[j].1 is Branch && panes_of(cs[j].1).contains(pane)),
    ensures
        remove_children(cs, pane) == cs,
    decreases cs.len(),
{
    if cs.len() > 0 {
        assert(!(cs[0].1 is Branch && panes_of(cs[0].1).contains(pane)));
        let rest = cs.drop_first();
        assert forall|j: int| 0 <= j < rest.len() implies !(#[trigger] rest[j].1 is Branch && panes_of(rest[j].1).contains(pane)) by {
            assert(rest[j] == cs[j + 1]);
        }
        lemma_remove_children_none(rest, pane);
        assert(seq![cs[0]] + rest =~= cs);
    }
}

/// Removes a pane. An emptied split disappears, a split left with one child
/// becomes that child, and nested splits along one axis merge. The tree is
/// `None` once its last pane is gone.
pub fn remove(root: &mut Option<Node>, pane: PaneId) -> (removed: bool)
    ensures
        root_view(*final(root)) == remove_tree(root_view(*old(root)), pane),
        removed == match root_view(*old(root)) {
            None => false,
            Some(t) => panes_of(t).contains(pane),
        },
{
    let mut taken: Option<Node> = None;
    std::mem::swap(root, &mut taken);
    match taken {
        None => false,
        Some(node) => {
            if is_pane(&node, pane) {
                proof {
                    assert(panes_of(node@)[0] == pane);
                }
                return true;
            }
            let (node, removed) = Node::removed_from(node, pane);
            *root = Some(Node::normalized(node));
            removed
        },
    }
}

impl Node {
    /// `node` without the first `pane` below a split; and whether there was one.
    fn removed_from(node: Node, pane: PaneId) -> (res: (Node, bool))
        ensures
            res.1 == (node@ is Branch && panes_of(node@).contains(pane)),
            res.0@ == remove_from_tree(node@, pane),
        decreases node,
    {
        match node {
            Node::Pane(p) => (Node::Pane(p), false),
            Node::Split { axis, children } => {
                let ghost initial = children@;
                proof {
                    lemma_children_view(children@);
                    lemma_leaf_position(children_view(children@), pane);
                    lemma_children_panes_contains(children_view(children@), pane);
                }
                let ghost cv = children_view(children@);
                let mut children = children;
                let mut index: usize = 0;
                while index < children.len() && !is_pane(&children[index].1, pane)
                    invariant
                        0 <= index <= children.len(),
                        children@ == initial,
                        cv == children_view(initial),
                        cv.len() == initial.len(),
                        forall|j: int| 0 <= j < cv.len() ==> #[trigger] cv[j] == (initial[j].0, node_view(initial[j].1)),
                        forall|j: int| 0 <= j < index ==> cv[j].1 != Tree::Leaf(pane),
                    decreases children.len() - index,
                {
                    index += 1;
                }
                if index < children.len() {
                    assert(cv[index as int].1 == Tree::Leaf(pane));
                    assert(leaf_position(cv, pane) == index as int);
                    let ghost before = children@;
                    children.remove(index);
                    proof {
                        lemma_children_view(children@);
                        assert(children_view(children@) =~= cv.remove(index as int));
                        assert(panes_of(cv[index as int].1)[0] == pane);
                        assert(panes_of(cv[index as int].1).contains(pane));
                    }
                    return (Node::Split { axis, children }, true);
                }
                assert(leaf_position(cv, pane) < 0);
                let mut i: usize = 0;
                while i < children.len()
                    invariant
                        0 <= i <= children.len(),
                        children@.len() == initial.len(),
                        forall|j: int| i <= j < initial.len() ==> #[trigger] children@[j] == initial[j],
                        children_view(children@) == cv,
                        node == (Node::Split { axis, children: node->children }),
                        node->children@ == initial,
                        cv == children_view(initial),
                        cv.len() == initial.len(),
                        forall|j: int| 0 <= j < cv.len() ==> #[trigger] cv[j] == (initial[j].0, node_view(initial[j].1)),
                        forall|j: int| 0 <= j < i ==> !(#[trigger] cv[j].1 is Branch && panes_of(cv[j].1).contains(pane)),
                        forall|j: int| 0 <= j < cv.len() ==> cv[j].1 != Tree::Leaf(pane),
                        leaf_position(cv, pane) < 0,
                        children_panes(cv).contains(pane) <==> exists|j: int| 0 <= j < cv.len() && #[trigger] panes_of(cv[j].1).contains(pane),
                    decreases children.len() - i,
                {
                    proof {
                        let c = initial[i as int];
                        assert(decreases_to!(node => node->children));
                        assert(decreases_to!(node->children => initial));
                        assert(decreases_to!(initial => c));
                        assert(decreases_to!(c => c.1));
                    }
                    let ghost before = children@;
                    let (w, c) = children.remove(i);
                    assert(c == initial[i as int].1);
                    let (c, found) = Node::removed_from(c, pane);
                    children.insert(i, (w, c));
                    assert(children@ =~= before.update(i as int, (w, c)));
                    proof {
                        lemma_children_view_update(before, i as int, (w, c));
                    }
                    if found {
                        proof {
                            lemma_remove_children_prefix(cv, i as int, pane);
                        }
                        return (Node::Split { axis, children }, true);
                    }
                    proof {
                        lemma_remove_absent(cv[i as int].1, pane);
                        assert(cv.update(i as int, (w, node_view(c))) =~= cv);
                    }
                    i += 1;
                }
                proof {
                    lemma_remove_children_none(cv, pane);
                    if children_panes(cv).contains(pane) {
                        let j = choose|j: int| 0 <= j < cv.len() && #[trigger] panes_of(cv[j].1).contains(pane);
                        match cv[j].1 {
                            Tree::Leaf(q) => {
                                assert(panes_of(cv[j].1)[0] == q);
                                assert(false);
                            },
                            Tree::Branch(..) => {},
                        }
                    }
                }
                (Node::Split { axis, children }, false)
            },
        }
    }
}


pub proof fn lemma_remove_absent(t: Tree, pane: PaneId)
    requires
        !(t is Branch && panes_of(t).contains(pane)),
    ensures
        remove_from_tree(t, pane) == t,
{
    if let Tree::Branch(axis, cs) = t {
        lemma_leaf_position(cs, pane);
        lemma_children_panes_contains(cs, pane);
        if leaf_position(cs, pane) >= 0 {
            let k = leaf_position(cs, pane);
            assert(panes_of(cs[k].1)[0] == pane);
            assert(panes_of(cs[k].1).contains(pane));
        }
        assert forall|j: int| 0 <= j < cs.len() implies !(#[trigger] cs[j].1 is Branch && panes_of(cs[j].1).contains(pane)) by {
            if panes_of(cs[j].1).contains(pane) {
                assert(children_panes(cs).contains(pane));
            }
        }
        lemma_remove_children_none(cs, pane);
    }
}


/// The placeholder `swap` renames through; no real pane uses it.
pub open spec fn hole() -> PaneId {
    PaneId(0xffff_ffff)
}

/// What `swap` makes of a tree.
pub open spec fn swap_tree(t: Tree, a: PaneId, b: PaneId) -> Tree {
    replace_tree(replace_tree(replace_tree(t, a, hole()), b, a), hole(), b)
}

/// Swaps two panes' places in one tree.
pub fn swap(node: &mut Node, a: PaneId, b: PaneId)
    ensures
        final(node)@ == swap_tree(old(node)@, a, b),
{
    // Via a placeholder no real pane uses.
    let hole = PaneId(0xffff_ffff);
    node.replace(a, hole);
    node.replace(b, a);
    node.replace(hole, b);
}

/// The smallest length a tree can have along `axis`: a pane's minimum, the
/// sum of the children and their separators along the split's own axis, and
/// the largest child across it; saturated at the largest `u16`.
pub open spec fn min_len(t: Tree, axis: Axis) -> u16
    decreases t, 0int,
{
    match t {
        Tree::Leaf(_) => MIN,
        Tree::Branch(own, cs) => if own == axis {
            let separators = (if cs.len() >= 1 { cs.len() - 1 } else { 0 }) as u16;
            let total = separators + sum_mins(cs, axis);
            if total > 0xffff { 0xffffu16 } else { total as u16 }
        } else if cs.len() == 0 {
            MIN
        } else {
            max_mins(cs, axis)
        },
    }
}

pub open spec fn sum_mins(cs: Seq<(u32, Tree)>, axis: Axis) -> int
    decreases cs, 1int,
{
    if cs.len() == 0 {
        0
    } else {
        sum_mins(cs.drop_last(), axis) + min_len(cs.last().1, axis)
    }
}

pub open spec fn max_mins(cs: Seq<(u32, Tree)>, axis: Axis) -> u16
    decreases cs, 1int,
{
    if cs.len() == 0 {
        0
    } else {
        let m = max_mins(cs.drop_last(), axis);
        let c = min_len(cs.last().1, axis);
        if m >= c { m } else { c }
    }
}

pub proof fn lemma_sum_mins_nonneg(cs: Seq<(u32, Tree)>, axis: Axis)
    ensures
        sum_mins(cs, axis) >= 0,
    decreases cs.len(),
{
    if cs.len() > 0 {
        lemma_sum_mins_nonneg(cs.drop_last(), axis);
    }
}

impl Node {
    /// The smallest length this node can have along `axis`.
    pub fn min_len(&self, axis: Axis) -> (len: u16)
        ensures
            len == min_len(self@, axis),
        decreases self,
    {
        match self {
            Node::Pane(_) => MIN,
            Node::Split { axis: own, children } => {
                proof {
                    lemma_children_view(children@);
                }
                let ghost cv = children_view(children@);
                let along = match (own, axis) {
                    (Axis::Horizontal, Axis::Horizontal) | (Axis::Vertical, Axis::Vertical) => true,
                    _ => false,
                };
                let separators: u16 = if children.len() >= 1 { (children.len() - 1) as u16 } else { 0 };
                let mut sum: u16 = separators;
                let mut max: u16 = 0;
                let mut i: usize = 0;
                while i < children.len()
                    invariant
                        0 <= i <= children.len(),
                        self is Split,
                        self->children == *children,
                        cv == children_view(children@),
                        cv.len() == children@.len(),
                        forall|j: int| 0 <= j < cv.len() ==> #[trigger] cv[j] == (children@[j].0, node_view(children@[j].1)),
                        sum == (if separators + sum_mins(cv.take(i as int), axis) > 0xffff { 0xffffu16 } else { (separators + sum_mins(cv.take(i as int), axis)) as u16 }),
                        max == max_mins(cv.take(i as int), axis),
                    decreases children.len() - i,
                {
                    proof {
                        let c = children@[i as int];
                        assert(decreases_to!(*self => self->children));
                        assert(decreases_to!(self->children => children@));
                        assert(decreases_to!(children@ => c));
                        assert(decreases_to!(c => c.1));
                        assert(cv.take(i + 1).drop_last() =~= cv.take(i as int));
                        assert(cv.take(i + 1).last() == cv[i as int]);
                        lemma_sum_mins_nonneg(cv.take(i as int), axis);
                    }
                    let m = children[i].1.min_len(axis);
                    sum = sum.saturating_add(m);
                    if m > max {
                        max = m;
                    }
                    i += 1;
                }
                assert(cv.take(i as int) =~= cv);
                if along {
                    sum
                } else if children.len() == 0 {
                    MIN
                } else {
                    max
                }
            },
        }
    }
}


#[derive(Clone, Copy, Debug, Default, PartialEq, Eq, Structural)]
pub struct Rect {
    pub x: u16,
    pub y: u16,
    pub w: u16,
    pub h: u16,
}

impl Rect {
    pub fn contains(&self, x: u16, y: u16) -> (inside: bool)
        ensures
            inside == (self.x <= x < self.x + self.w && self.y <= y < self.y + self.h),
    {
        x >= self.x && y >= self.y && (x as u32) < self.x as u32 + self.w as u32 && (y as u32) < self.y as u32
            + self.h as u32
    }

    fn right(&self) -> (r: u32)
        ensures
            r == self.x + self.w,
    {
        self.x as u32 + self.w as u32
    }

    fn bottom(&self) -> (b: u32)
        ensures
            b == self.y + self.h,
    {
        self.y as u32 + self.h as u32
    }
}

/// A separator line: vertical between side-by-side children, horizontal
/// between stacked ones.
#[derive(Clone, Copy, Debug, PartialEq, Eq, Structural)]
pub struct Separator {
    pub vertical: bool,
    pub x: u16,
    pub y: u16,
    pub len: u16,
}

#[derive(Clone, Debug, Default, PartialEq, Eq)]
pub struct Placement {
    pub panes: Vec<(PaneId, Rect)>,
    pub separators: Vec<Separator>,
}

/// The rectangle of the first entry for `pane`.
pub open spec fn first_rect(ps: Seq<(PaneId, Rect)>, pane: PaneId) -> Option<Rect>
    decreases ps.len(),
{
    if ps.len() == 0 {
        None
    } else if ps[0].0 == pane {
        Some(ps[0].1)
    } else {
        first_rect(ps.drop_first(), pane)
    }
}

pub proof fn lemma_first_rect(ps: Seq<(PaneId, Rect)>, pane: PaneId, i: int)
    requires
        0 <= i <= ps.len(),
        forall|j: int| 0 <= j < i ==> ps[j].0 != pane,
    ensures
        first_rect(ps, pane) == first_rect(ps.skip(i), pane),
    decreases i,
{
    if i > 0 {
        assert(ps.drop_first().skip(i - 1) =~= ps.skip(i));
        assert forall|j: int| 0 <= j < i - 1 implies ps.drop_first()[j].0 != pane by {
            assert(ps.drop_first()[j] == ps[j + 1]);
        }
        lemma_first_rect(ps.drop_first(), pane, i - 1);
    } else {
        assert(ps.skip(0) =~= ps);
    }
}

impl Placement {
    pub fn rect(&self, pane: PaneId) -> (r: Option<Rect>)
        ensures
            r == first_rect(self.panes@, pane),
    {
        let mut i: usize = 0;
        while i < self.panes.len()
            invariant
                0 <= i <= self.panes.len(),
                forall|j: int| 0 <= j < i ==> self.panes@[j].0 != pane,
            decreases self.panes.len() - i,
        {
            if self.panes[i].0.0 == pane.0 {
                proof {
                    lemma_first_rect(self.panes@, pane, i as int);
                }
                return Some(self.panes[i].1);
            }
            i += 1;
        }
        proof {
            lemma_first_rect(self.panes@, pane, i as int);
        }
        None
    }
}

/// Twice a rectangle's centre.
pub open spec fn centre(r: Rect) -> (int, int) {
    (r.x * 2 + r.w, r.y * 2 + r.h)
}

/// Whether `r` lies wholly beyond `source`'s edge in `direction`.
pub open spec fn beyond(r: Rect, source: Rect, direction: Direction) -> bool {
    match direction {
        Direction::Left => r.x + r.w <= source.x,
        Direction::Right => r.x >= source.x + source.w,
        Direction::Up => r.y + r.h <= source.y,
        Direction::Down => r.y >= source.y + source.h,
    }
}

pub open spec fn abs_diff(a: int, b: int) -> int {
    if a >= b { a - b } else { b - a }
}

/// How far a candidate is: the distance between centres across the
/// direction, then along it, then its ID.
pub open spec fn rank(r: Rect, p: PaneId, source: Rect, direction: Direction) -> (int, int, int) {
    let (sx, sy) = centre(source);
    let (cx, cy) = centre(r);
    match direction {
        Direction::Left | Direction::Right => (abs_diff(sy, cy), abs_diff(sx, cx), p.0 as int),
        Direction::Up | Direction::Down => (abs_diff(sx, cx), abs_diff(sy, cy), p.0 as int),
    }
}

pub open spec fn rank_le(a: (int, int, int), b: (int, int, int)) -> bool {
    a.0 < b.0 || (a.0 == b.0 && (a.1 < b.1 || (a.1 == b.1 && a.2 <= b.2)))
}

pub open spec fn is_candidate(e: (PaneId, Rect), from: PaneId, source: Rect, direction: Direction) -> bool {
    e.0 != from && beyond(e.1, source, direction)
}

fn abs_diff_u32(a: u32, b: u32) -> (d: u32)
    ensures
        d == abs_diff(a as int, b as int),
{
    if a >= b { a - b } else { b - a }
}

/// The pane in `direction` from `from`, among the placed panes: rectangles
/// beyond `from`'s edge, ranked by the distance between centres across the
/// direction, then by the distance along it, then by ID.
pub fn neighbor(placement: &Placement, from: PaneId, direction: Direction) -> (found: Option<PaneId>)
    ensures
        first_rect(placement.panes@, from) is None ==> found is None,
        first_rect(placement.panes@, from) matches Some(source) ==> {
            &&& found is None <==> forall|j: int| 0 <= j < placement.panes@.len() ==> !is_candidate(#[trigger] placement.panes@[j], from, source, direction)
            &&& found matches Some(q) ==> exists|i: int| {
                &&& 0 <= i < placement.panes@.len()
                &&& #[trigger] placement.panes@[i].0 == q
                &&& is_candidate(placement.panes@[i], from, source, direction)
                &&& forall|j: int| 0 <= j < placement.panes@.len() && is_candidate(#[trigger] placement.panes@[j], from, source, direction)
                    ==> rank_le(rank(placement.panes@[i].1, q, source, direction), rank(placement.panes@[j].1, placement.panes@[j].0, source, direction))
            }
        },
{
    let source = match placement.rect(from) {
        Some(r) => r,
        None => return None,
    };
    let sx: u32 = source.x as u32 * 2 + source.w as u32;
    let sy: u32 = source.y as u32 * 2 + source.h as u32;
    let ghost ps = placement.panes@;
    let mut best: Option<(u32, u32, u32)> = None;
    let mut best_index: usize = 0;
    let mut i: usize = 0;
    while i < placement.panes.len()
        invariant
            0 <= i <= placement.panes.len(),
            ps == placement.panes@,
            first_rect(ps, from) == Some(source),
            sx == centre(source).0,
            sy == centre(source).1,
            best is None <==> forall|j: int| 0 <= j < i ==> !is_candidate(#[trigger] ps[j], from, source, direction),
            best matches Some(k) ==> {
                &&& 0 <= best_index < i
                &&& is_candidate(ps[best_index as int], from, source, direction)
                &&& (k.0 as int, k.1 as int, k.2 as int) == rank(ps[best_index as int].1, ps[best_index as int].0, source, direction)
                &&& forall|j: int| 0 <= j < i && is_candidate(#[trigger] ps[j], from, source, direction)
                    ==> rank_le((k.0 as int, k.1 as int, k.2 as int), rank(ps[j].1, ps[j].0, source, direction))
            },
        decreases placement.panes.len() - i,
    {
        let (p, r) = placement.panes[i];
        let is_beyond = match direction {
            Direction::Left => r.right() <= source.x as u32,
            Direction::Right => r.x as u32 >= source.right(),
            Direction::Up => r.bottom() <= source.y as u32,
            Direction::Down => r.y as u32 >= source.bottom(),
        };
        if p.0 != from.0 && is_beyond {
            let cx: u32 = r.x as u32 * 2 + r.w as u32;
            let cy: u32 = r.y as u32 * 2 + r.h as u32;
            let key = match direction {
                Direction::Left | Direction::Right => (abs_diff_u32(sy, cy), abs_diff_u32(sx, cx), p.0),
                Direction::Up | Direction::Down => (abs_diff_u32(sx, cx), abs_diff_u32(sy, cy), p.0),
            };
            let better = match best {
                None => true,
                Some(k) => key.0 < k.0 || (key.0 == k.0 && (key.1 < k.1 || (key.1 == k.1 && key.2 < k.2))),
            };
            if better {
                best = Some(key);
                best_index = i;
            }
        }
        i += 1;
    }
    match best {
        Some(_) => Some(placement.panes[best_index].0),
        None => None,
    }
}


/// The sum of the first `k` values.
pub open spec fn prefix_sum(s: Seq<int>, k: int) -> int
    decreases k,
{
    if k <= 0 {
        0
    } else {
        prefix_sum(s, k - 1) + s[k - 1]
    }
}

/// How many of `costs`, in order, fit into `left` one after another.
pub open spec fn fit_count(left: int, costs: Seq<int>) -> int
    decreases costs.len(),
{
    if costs.len() == 0 || costs[0] > left {
        0
    } else {
        1 + fit_count(left - costs[0], costs.drop_first())
    }
}

/// Sizes when not everything fits in `along`: the children in order get
/// their minimums while their costs fit, and the last one shown takes what
/// is left; the rest get nothing.
pub open spec fn squeeze(along: int, costs: Seq<int>, mins: Seq<u16>) -> Seq<u16> {
    let k = fit_count(along, costs);
    Seq::new(mins.len(), |i: int|
        if i < k - 1 {
            mins[i]
        } else if i == k - 1 {
            (mins[i] + along - prefix_sum(costs, k)) as u16
        } else {
            0u16
        })
}

pub open spec fn u16_ints(s: Seq<u16>) -> Seq<int> {
    Seq::new(s.len(), |i: int| s[i] as int)
}

/// A weight as shares count it: at least one.
pub open spec fn wt(w: u32) -> int {
    if w >= 1 { w as int } else { 1 }
}

/// The minimums of the children fixed at their minimum.
pub open spec fn fixed_mins(mins: Seq<u16>, fixed: Seq<bool>, k: int) -> int
    decreases k,
{
    if k <= 0 {
        0
    } else {
        fixed_mins(mins, fixed, k - 1) + if fixed[k - 1] { mins[k - 1] as int } else { 0 }
    }
}

/// The weights of the children not fixed.
pub open spec fn free_weight(weights: Seq<u32>, fixed: Seq<bool>, k: int) -> int
    decreases k,
{
    if k <= 0 {
        0
    } else {
        free_weight(weights, fixed, k - 1) + if fixed[k - 1] { 0 } else { wt(weights[k - 1]) }
    }
}

/// The length the children not fixed share.
pub open spec fn free_len(len: u16, mins: Seq<u16>, fixed: Seq<bool>) -> int {
    len - fixed_mins(mins, fixed, mins.len() as int)
}

pub open spec fn divisor(weights: Seq<u32>, fixed: Seq<bool>) -> int {
    let w = free_weight(weights, fixed, weights.len() as int);
    if w >= 1 { w } else { 1 }
}

/// A free child's share of the free length, rounded down, and what the
/// rounding left over.
pub open spec fn share(len: u16, weights: Seq<u32>, mins: Seq<u16>, fixed: Seq<bool>, i: int) -> int {
    (free_len(len, mins, fixed) * wt(weights[i])) / divisor(weights, fixed)
}

pub open spec fn remainder(len: u16, weights: Seq<u32>, mins: Seq<u16>, fixed: Seq<bool>, i: int) -> int {
    (free_len(len, mins, fixed) * wt(weights[i])) % divisor(weights, fixed)
}

/// One round: every free child whose share is below its minimum is fixed.
pub open spec fn fix_round(len: u16, weights: Seq<u32>, mins: Seq<u16>, fixed: Seq<bool>) -> Seq<bool> {
    Seq::new(fixed.len(), |i: int| fixed[i] || share(len, weights, mins, fixed, i) < mins[i])
}

/// Rounds until none fixes another child.
pub open spec fn settle(len: u16, weights: Seq<u32>, mins: Seq<u16>, fixed: Seq<bool>, fuel: nat) -> Seq<bool>
    decreases fuel,
{
    if fuel == 0 {
        fixed
    } else {
        let next = fix_round(len, weights, mins, fixed);
        if next == fixed {
            fixed
        } else {
            settle(len, weights, mins, next, (fuel - 1) as nat)
        }
    }
}

/// The free children's shares taken together.
pub open spec fn used(len: u16, weights: Seq<u32>, mins: Seq<u16>, fixed: Seq<bool>, k: int) -> int
    decreases k,
{
    if k <= 0 {
        0
    } else {
        used(len, weights, mins, fixed, k - 1) + if fixed[k - 1] { 0 } else { share(len, weights, mins, fixed, k - 1) }
    }
}

/// How many free children come before `i` in handing out the rounding:
/// larger remainders first, then lower positions.
pub open spec fn rounding_rank(len: u16, weights: Seq<u32>, mins: Seq<u16>, fixed: Seq<bool>, i: int, k: int) -> int
    decreases k,
{
    if k <= 0 {
        0
    } else {
        let j = k - 1;
        let before = !fixed[j] && (remainder(len, weights, mins, fixed, j) > remainder(len, weights, mins, fixed, i)
            || (remainder(len, weights, mins, fixed, j) == remainder(len, weights, mins, fixed, i) && j < i));
        rounding_rank(len, weights, mins, fixed, i, k - 1) + if before { 1int } else { 0 }
    }
}

pub open spec fn count_free(fixed: Seq<bool>, k: int) -> int
    decreases k,
{
    if k <= 0 {
        0
    } else {
        count_free(fixed, k - 1) + if fixed[k - 1] { 0int } else { 1 }
    }
}

/// Sizes once the fixed children are settled: a fixed child gets its
/// minimum, a free one its share plus what the rounding hands it.
pub open spec fn fit_sizes(len: u16, weights: Seq<u32>, mins: Seq<u16>, fixed: Seq<bool>) -> Seq<u16> {
    let n = weights.len();
    let f = free_len(len, mins, fixed);
    let u = used(len, weights, mins, fixed, n as int);
    let left = if f >= u { f - u } else { 0 };
    let free = count_free(fixed, n as int);
    Seq::new(n, |i: int|
        if fixed[i] {
            mins[i]
        } else {
            let rank = rounding_rank(len, weights, mins, fixed, i, n as int);
            (share(len, weights, mins, fixed, i) + (if rank < left { 1int } else { 0 }) + (if rank + free < left { 1int } else { 0 })) as u16
        })
}

/// How `len` cells are shared among children with `weights` and minimums
/// `mins`.
pub open spec fn distribution(len: u16, weights: Seq<u32>, mins: Seq<u16>) -> Seq<u16> {
    let n = weights.len();
    if len < prefix_sum(u16_ints(mins), n as int) {
        squeeze(len as int, u16_ints(mins), mins)
    } else {
        fit_sizes(len, weights, mins, settle(len, weights, mins, Seq::new(n, |i: int| false), n))
    }
}

pub proof fn lemma_fixed_mins_bound(mins: Seq<u16>, fixed: Seq<bool>, k: int)
    requires
        0 <= k <= mins.len(),
        fixed.len() == mins.len(),
    ensures
        0 <= fixed_mins(mins, fixed, k) <= prefix_sum(u16_ints(mins), k),
    decreases k,
{
    if k > 0 {
        lemma_fixed_mins_bound(mins, fixed, k - 1);
    }
}

pub proof fn lemma_prefix_sum_bound(s: Seq<u16>, k: int)
    requires
        0 <= k <= s.len(),
    ensures
        0 <= prefix_sum(u16_ints(s), k) <= k * 0xffff,
    decreases k,
{
    if k > 0 {
        lemma_prefix_sum_bound(s, k - 1);
    }
}

pub proof fn lemma_free_weight_bound(weights: Seq<u32>, fixed: Seq<bool>, k: int)
    requires
        0 <= k <= weights.len(),
        fixed.len() == weights.len(),
    ensures
        0 <= free_weight(weights, fixed, k) <= k * 0xffff_ffff,
        forall|i: int| 0 <= i < k && !fixed[i] ==> wt(#[trigger] weights[i]) <= free_weight(weights, fixed, k),
    decreases k,
{
    if k > 0 {
        lemma_free_weight_bound(weights, fixed, k - 1);
    }
}

pub proof fn lemma_used_bound(len: u16, weights: Seq<u32>, mins: Seq<u16>, fixed: Seq<bool>, k: int)
    requires
        0 <= k <= weights.len(),
        fixed.len() == weights.len(),
        weights.len() == mins.len(),
        0 <= free_len(len, mins, fixed) <= 0xffff,
        forall|i: int| 0 <= i < weights.len() && !fixed[i] ==> 0 <= #[trigger] share(len, weights, mins, fixed, i) <= free_len(len, mins, fixed),
    ensures
        0 <= used(len, weights, mins, fixed, k) <= k * 0xffff,
        forall|i: int| 0 <= i < k && !fixed[i] ==> #[trigger] share(len, weights, mins, fixed, i) <= used(len, weights, mins, fixed, k),
    decreases k,
{
    if k > 0 {
        lemma_used_bound(len, weights, mins, fixed, k - 1);
    }
}

pub proof fn lemma_count_free(fixed: Seq<bool>, k: int)
    requires
        0 <= k <= fixed.len(),
    ensures
        0 <= count_free(fixed, k) <= k,
        (exists|i: int| 0 <= i < k && !fixed[i]) ==> count_free(fixed, k) >= 1,
    decreases k,
{
    if k > 0 {
        lemma_count_free(fixed, k - 1);
        if exists|i: int| 0 <= i < k && !fixed[i] {
            if fixed[k - 1] {
                let i = choose|i: int| 0 <= i < k && !fixed[i];
                assert(0 <= i < k - 1 && !fixed[i]);
            }
        }
    }
}

pub proof fn lemma_count_free_shrinks(fixed: Seq<bool>, next: Seq<bool>, k: int)
    requires
        0 <= k <= fixed.len(),
        next.len() == fixed.len(),
        forall|i: int| 0 <= i < fixed.len() && fixed[i] ==> next[i],
    ensures
        count_free(next, k) <= count_free(fixed, k),
        (exists|i: int| 0 <= i < k && !fixed[i] && next[i]) ==> count_free(next, k) < count_free(fixed, k),
    decreases k,
{
    if k > 0 {
        lemma_count_free_shrinks(fixed, next, k - 1);
        if exists|i: int| 0 <= i < k && !fixed[i] && next[i] {
            let i = choose|i: int| 0 <= i < k && !fixed[i] && next[i];
            if i < k - 1 {
                assert(exists|i: int| 0 <= i < k - 1 && !fixed[i] && next[i]);
            }
        }
    }
}

pub proof fn lemma_share_bound(f: int, a: int, d: int)
    requires
        0 <= f,
        1 <= a <= d,
    ensures
        0 <= (f * a) / d <= f,
        0 <= (f * a) % d < d,
{
    assert(0 <= f * a <= f * d) by (nonlinear_arith)
        requires 0 <= f, 1 <= a <= d;
    assert((f * d) / d == f) by (nonlinear_arith)
        requires d >= 1;
    vstd::arithmetic::div_mod::lemma_div_is_ordered(f * a, f * d, d);
    vstd::arithmetic::div_mod::lemma_div_pos_is_pos(f * a, d);
    vstd::arithmetic::div_mod::lemma_mod_bound(f * a, d);
}

/// Sizes when not all children fit: see `squeeze`.
fn squeeze_sizes(along: u16, costs: &Vec<u16>, mins: &Vec<u16>) -> (sizes: Vec<u16>)
    requires
        costs.len() == mins.len(),
        forall|i: int| 0 <= i < mins.len() ==> mins@[i] <= costs@[i],
    ensures
        sizes@ == squeeze(along as int, u16_ints(costs@), mins@),
{
    let n = mins.len();
    let ghost cs = u16_ints(costs@);
    let mut sizes: Vec<u16> = Vec::new();
    let mut z: usize = 0;
    while z < n
        invariant
            0 <= z <= n,
            n == mins.len(),
            sizes@.len() == z,
            forall|j: int| 0 <= j < z ==> sizes@[j] == 0,
        decreases n - z,
    {
        sizes.push(0);
        z += 1;
    }
    let mut left: u16 = along;
    let mut i: usize = 0;
    assert(cs.skip(0) =~= cs);
    while i < n && costs[i] <= left
        invariant
            0 <= i <= n,
            n == mins.len(),
            n == costs.len(),
            cs == u16_ints(costs@),
            forall|j: int| 0 <= j < mins.len() ==> mins@[j] <= costs@[j],
            sizes@.len() == n,
            forall|j: int| 0 <= j < i ==> sizes@[j] == mins@[j],
            forall|j: int| i <= j < n ==> sizes@[j] == 0,
            left == along - prefix_sum(cs, i as int),
            fit_count(along as int, cs) == i + fit_count(left as int, cs.skip(i as int)),
        decreases n - i,
    {
        proof {
            assert(cs.skip(i as int).drop_first() =~= cs.skip(i + 1));
            assert(cs.skip(i as int)[0] == costs@[i as int]);
        }
        left = left - costs[i];
        sizes.set(i, mins[i]);
        i += 1;
    }
    proof {
        if i < n {
            assert(cs.skip(i as int)[0] == costs@[i as int]);
        }
        assert(fit_count(left as int, cs.skip(i as int)) == 0);
    }
    if i > 0 {
        assert(prefix_sum(cs, i as int) == prefix_sum(cs, i - 1) + costs@[i - 1]);
        proof {
            lemma_prefix_sum_bound(costs@, i - 1);
        }
        let last = sizes[i - 1] + left;
        sizes.set(i - 1, last);
    }
    let ghost expected = squeeze(along as int, cs, mins@);
    assert(sizes@ =~= expected);
    sizes
}


/// Shares `len` cells among children with `weights`, giving each at least
/// its minimum while there is room; children that do not fit get zero.
fn distribute(len: u16, weights: &Vec<u32>, mins: &Vec<u16>) -> (sizes: Vec<u16>)
    requires
        weights.len() == mins.len(),
    ensures
        sizes@ == distribution(len, weights@, mins@),
{
    let n = weights.len();
    let ghost ms = u16_ints(mins@);
    let mut needed: u128 = 0;
    let mut i: usize = 0;
    while i < n
        invariant
            0 <= i <= n,
            n == mins.len(),
            ms == u16_ints(mins@),
            needed == prefix_sum(ms, i as int),
            needed <= i * 0xffff,
        decreases n - i,
    {
        needed = needed + mins[i] as u128;
        i += 1;
    }
    if (len as u128) < needed {
        // Not enough room: minimums in order while they fit; the last child
        // shown takes what is left.
        return squeeze_sizes(len, mins, mins);
    }
    let ghost w = weights@;
    let ghost m = mins@;
    let mut fixed: Vec<bool> = Vec::new();
    let mut z: usize = 0;
    while z < n
        invariant
            0 <= z <= n,
            fixed@.len() == z,
            forall|j: int| 0 <= j < z ==> !fixed@[j],
        decreases n - z,
    {
        fixed.push(false);
        z += 1;
    }
    let ghost initial = fixed@;
    assert(initial =~= Seq::new(n as nat, |i: int| false));
    let ghost mut fuel: nat = n as nat;
    proof {
        lemma_count_free(fixed@, n as int);
    }
    loop
        invariant
            n == weights.len(),
            n == mins.len(),
            fixed@.len() == n,
            w == weights@,
            m == mins@,
            ms == u16_ints(m),
            len >= prefix_sum(ms, n as int),
            initial =~= Seq::new(n as nat, |i: int| false),
            settle(len, w, m, initial, n as nat) == settle(len, w, m, fixed@, fuel),
            fuel >= count_free(fixed@, n as int),
        decreases count_free(fixed@, n as int),
    {
        let ghost fx = fixed@;
        proof {
            lemma_fixed_mins_bound(m, fx, n as int);
            lemma_free_weight_bound(w, fx, n as int);
            lemma_prefix_sum_bound(m, n as int);
        }
        // The length and weight the free children share.
        let mut taken: u128 = 0;
        let mut weight: u128 = 0;
        let mut i: usize = 0;
        while i < n
            invariant
                0 <= i <= n,
                n == weights.len(),
                n == mins.len(),
                fixed@.len() == n,
                fx == fixed@,
                w == weights@,
                m == mins@,
                taken == fixed_mins(m, fx, i as int),
                weight == free_weight(w, fx, i as int),
                taken <= i * 0xffff,
                weight <= i * 0xffff_ffff,
            decreases n - i,
        {
            if fixed[i] {
                taken = taken + mins[i] as u128;
            } else {
                let wi: u128 = if weights[i] >= 1 { weights[i] as u128 } else { 1 };
                weight = weight + wi;
            }
            i += 1;
        }
        let fl: u128 = len as u128 - taken;
        let dv: u128 = if weight >= 1 { weight } else { 1 };
        assert(fl == free_len(len, m, fx));
        assert(dv == divisor(w, fx));
        let mut next: Vec<bool> = Vec::new();
        let mut changed = false;
        let mut i: usize = 0;
        while i < n
            invariant
                0 <= i <= n,
                n == weights.len(),
                n == mins.len(),
                fixed@.len() == n,
                fx == fixed@,
                w == weights@,
                m == mins@,
                fl == free_len(len, m, fx),
                0 <= fl <= 0xffff,
                dv == divisor(w, fx),
                forall|j: int| 0 <= j < n && !fx[j] ==> wt(#[trigger] w[j]) <= dv,
                next@.len() == i,
                forall|j: int| 0 <= j < i ==> #[trigger] next@[j] == fix_round(len, w, m, fx)[j],
                changed == exists|j: int| 0 <= j < i && !fx[j] && next@[j],
            decreases n - i,
        {
            if fixed[i] {
                next.push(true);
            } else {
                let wi: u128 = if weights[i] >= 1 { weights[i] as u128 } else { 1 };
                proof {
                    lemma_share_bound(fl as int, wi as int, dv as int);
                }
                assert(fl * wi <= 0xffff * 0xffff_ffff) by (nonlinear_arith)
                    requires fl <= 0xffff, wi <= 0xffff_ffff;
                let sh: u128 = fl * wi / dv;
                assert(sh == share(len, w, m, fx, i as int));
                if sh < mins[i] as u128 {
                    next.push(true);
                    changed = true;
                } else {
                    next.push(false);
                }
            }
            i += 1;
        }
        assert(next@ =~= fix_round(len, w, m, fx));
        if changed {
            proof {
                lemma_count_free_shrinks(fx, next@, n as int);
                lemma_count_free(fx, n as int);
                assert(next@ != fx) by {
                    let j = choose|j: int| 0 <= j < n && !fx[j] && next@[j];
                    assert(next@[j] != fx[j]);
                }
                fuel = (fuel - 1) as nat;
                assert(count_free(next@, n as int) < count_free(fx, n as int));
            }
            fixed = next;
            assert(count_free(fixed@, n as int) < count_free(fx, n as int));
            proof {
                lemma_count_free(fixed@, n as int);
            }
        } else {
            proof {
                assert(next@ =~= fx);
                assert(settle(len, w, m, fx, fuel) == fx);
                assert(settle(len, w, m, initial, n as nat) == fx);
                assert(!(len < prefix_sum(u16_ints(m), n as int)));
                assert(initial =~= Seq::new(w.len(), |i: int| false));
            }
            return settled_sizes(len, weights, mins, &fixed, fl, dv);
        }
    }
}


/// The sizes once no round fixes another child.
fn settled_sizes(len: u16, weights: &Vec<u32>, mins: &Vec<u16>, fixed: &Vec<bool>, fl: u128, dv: u128) -> (sizes: Vec<u16>)
    requires
        weights.len() == mins.len(),
        fixed.len() == mins.len(),
        fl == free_len(len, mins@, fixed@),
        0 <= fl <= 0xffff,
        dv == divisor(weights@, fixed@),
    ensures
        sizes@ == fit_sizes(len, weights@, mins@, fixed@),
{
    let n = weights.len();
    let ghost w = weights@;
    let ghost m = mins@;
    let ghost fx = fixed@;
    proof {
        lemma_free_weight_bound(w, fx, n as int);
    }
    // The shares, what rounding left over of each, and what they use.
    let mut shares: Vec<u128> = Vec::new();
    let mut rems: Vec<u128> = Vec::new();
    let mut spent: u128 = 0;
    let mut free: usize = 0;
    let mut i: usize = 0;
    while i < n
        invariant
            0 <= i <= n,
            n == weights.len(),
            n == mins.len(),
            n == fixed.len(),
            w == weights@,
            m == mins@,
            fx == fixed@,
            fl == free_len(len, m, fx),
            0 <= fl <= 0xffff,
            dv == divisor(w, fx),
            forall|j: int| 0 <= j < n && !fx[j] ==> wt(#[trigger] w[j]) <= dv,
            shares@.len() == i,
            rems@.len() == i,
            forall|j: int| 0 <= j < i && !fx[j] ==> #[trigger] shares@[j] == share(len, w, m, fx, j),
            forall|j: int| 0 <= j < i && !fx[j] ==> #[trigger] rems@[j] == remainder(len, w, m, fx, j),
            forall|j: int| 0 <= j < i && !fx[j] ==> 0 <= #[trigger] share(len, w, m, fx, j) <= fl,
            spent == used(len, w, m, fx, i as int),
            spent <= i * 0xffff,
            free == count_free(fx, i as int),
            free <= i,
        decreases n - i,
    {
        if fixed[i] {
            shares.push(0);
            rems.push(0);
        } else {
            let wi: u128 = if weights[i] >= 1 { weights[i] as u128 } else { 1 };
            proof {
                lemma_share_bound(fl as int, wi as int, dv as int);
            }
            assert(fl * wi <= 0xffff * 0xffff_ffff) by (nonlinear_arith)
                requires fl <= 0xffff, wi <= 0xffff_ffff;
            let exact: u128 = fl * wi;
            shares.push(exact / dv);
            rems.push(exact % dv);
            spent = spent + exact / dv;
            free = free + 1;
        }
        i += 1;
    }
    proof {
        lemma_used_bound(len, w, m, fx, n as int);
        lemma_count_free(fx, n as int);
    }
    let left: u128 = if fl >= spent { fl - spent } else { 0 };
    let mut sizes: Vec<u16> = Vec::new();
    let mut i: usize = 0;
    while i < n
        invariant
            0 <= i <= n,
            n == weights.len(),
            n == mins.len(),
            n == fixed.len(),
            w == weights@,
            m == mins@,
            fx == fixed@,
            fl == free_len(len, m, fx),
            0 <= fl <= 0xffff,
            shares@.len() == n,
            rems@.len() == n,
            forall|j: int| 0 <= j < n && !fx[j] ==> #[trigger] shares@[j] == share(len, w, m, fx, j),
            forall|j: int| 0 <= j < n && !fx[j] ==> #[trigger] rems@[j] == remainder(len, w, m, fx, j),
            forall|j: int| 0 <= j < n && !fx[j] ==> #[trigger] share(len, w, m, fx, j) <= used(len, w, m, fx, n as int),
            forall|j: int| 0 <= j < n && !fx[j] ==> 0 <= #[trigger] share(len, w, m, fx, j) <= fl,
            spent == used(len, w, m, fx, n as int),
            left == (if fl >= spent { fl - spent } else { 0 }),
            free == count_free(fx, n as int),
            (exists|j: int| 0 <= j < n && !fx[j]) ==> free >= 1,
            sizes@.len() == i,
            forall|j: int| 0 <= j < i ==> #[trigger] sizes@[j] == fit_sizes(len, w, m, fx)[j],
        decreases n - i,
    {
        if fixed[i] {
            sizes.push(mins[i]);
        } else {
            // Its place in handing out the rounding.
            let mut rank: usize = 0;
            let mut j: usize = 0;
            while j < n
                invariant
                    0 <= j <= n,
                    0 <= i < n,
                    n == fixed.len(),
                    n == rems.len(),
                    fx == fixed@,
                    forall|k: int| 0 <= k < n && !fx[k] ==> #[trigger] rems@[k] == remainder(len, w, m, fx, k),
                    !fx[i as int],
                    rank == rounding_rank(len, w, m, fx, i as int, j as int),
                    rank <= j,
                decreases n - j,
            {
                if !fixed[j] && (rems[j] > rems[i] || (rems[j] == rems[i] && j < i)) {
                    rank = rank + 1;
                }
                j += 1;
            }
            assert(!fx[i as int]);
            assert(free >= 1);
            assert(shares@[i as int] <= spent);
            let mut size: u128 = shares[i];
            if (rank as u128) < left {
                size = size + 1;
            }
            if (rank as u128) + (free as u128) < left {
                size = size + 1;
            }
            proof {
                let sh = shares@[i as int] as int;
                assert(sh <= fl);
                if left > 0 {
                    assert(spent <= fl);
                    assert(size <= sh + left);
                }
            }
            assert(size <= fl);
            sizes.push(size as u16);
        }
        i += 1;
    }
    assert(sizes@ =~= fit_sizes(len, w, m, fx));
    sizes
}


/// The length of `area` along `axis`.
pub open spec fn along_of(axis: Axis, area: Rect) -> u16 {
    match axis {
        Axis::Horizontal => area.w,
        Axis::Vertical => area.h,
    }
}

/// One separator between each pair of `n` children.
pub open spec fn separator_count(n: int) -> u16 {
    (if n >= 1 { n - 1 } else { 0 }) as u16
}

pub open spec fn child_weights(cs: Seq<(u32, Tree)>) -> Seq<u32> {
    Seq::new(cs.len(), |i: int| cs[i].0)
}

pub open spec fn child_mins(cs: Seq<(u32, Tree)>, axis: Axis) -> Seq<u16> {
    Seq::new(cs.len(), |i: int| min_len(cs[i].1, axis))
}

/// The room all children need along `axis`, with their separators,
/// saturated at the largest `u16`.
pub open spec fn needed(cs: Seq<(u32, Tree)>, axis: Axis) -> u16 {
    let total = separator_count(cs.len() as int) + prefix_sum(u16_ints(child_mins(cs, axis)), cs.len() as int);
    if total > 0xffff { 0xffffu16 } else { total as u16 }
}

/// What a child costs when not all fit: its minimum and, after the first,
/// its separator.
pub open spec fn child_costs(mins: Seq<u16>) -> Seq<int> {
    Seq::new(mins.len(), |i: int| {
        let c = mins[i] + if i > 0 { 1int } else { 0 };
        if c > 0xffff { 0xffff } else { c }
    })
}

/// The length each child of a split gets along its axis in `area`.
pub open spec fn split_sizes(cs: Seq<(u32, Tree)>, axis: Axis, area: Rect) -> Seq<u16> {
    let along = along_of(axis, area);
    let mins = child_mins(cs, axis);
    if along >= needed(cs, axis) {
        distribution((along - separator_count(cs.len() as int)) as u16, child_weights(cs), mins)
    } else {
        squeeze(along as int, child_costs(mins), mins)
    }
}

/// The separator before a child at `offset` along `axis`.
pub open spec fn separator_at(axis: Axis, area: Rect, offset: int) -> Separator {
    match axis {
        Axis::Horizontal => Separator { vertical: true, x: (area.x + offset) as u16, y: area.y, len: area.h },
        Axis::Vertical => Separator { vertical: false, x: area.x, y: (area.y + offset) as u16, len: area.w },
    }
}

/// The area of a child at `offset` along `axis`, `size` long.
pub open spec fn child_area(axis: Axis, area: Rect, offset: int, size: u16) -> Rect {
    match axis {
        Axis::Horizontal => Rect { x: (area.x + offset) as u16, y: area.y, w: size, h: area.h },
        Axis::Vertical => Rect { x: area.x, y: (area.y + offset) as u16, w: area.w, h: size },
    }
}

/// The panes and separators of a tree placed in `area`.
pub open spec fn place_tree(t: Tree, area: Rect) -> (Seq<(PaneId, Rect)>, Seq<Separator>)
    decreases t, 0int,
{
    match t {
        Tree::Leaf(p) => (seq![(p, area)], Seq::empty()),
        Tree::Branch(axis, cs) => place_children(cs, split_sizes(cs, axis, area), axis, area, 0, true),
    }
}

/// The children from the first of `cs` on, the first of them at `offset`;
/// `first` while no child has been shown, so no separator is due.
pub open spec fn place_children(
    cs: Seq<(u32, Tree)>,
    sizes: Seq<u16>,
    axis: Axis,
    area: Rect,
    offset: int,
    first: bool,
) -> (Seq<(PaneId, Rect)>, Seq<Separator>)
    decreases cs, 1int,
{
    if cs.len() == 0 || sizes.len() == 0 {
        (Seq::empty(), Seq::empty())
    } else if sizes[0] == 0 {
        place_children(cs.drop_first(), sizes.drop_first(), axis, area, offset, first)
    } else {
        let at = if first { offset } else { offset + 1 };
        let seps: Seq<Separator> = if first { Seq::empty() } else { seq![separator_at(axis, area, offset)] };
        let inner = place_tree(cs[0].1, child_area(axis, area, at, sizes[0]));
        let rest = place_children(cs.drop_first(), sizes.drop_first(), axis, area, at + sizes[0], false);
        (inner.0 + rest.0, seps + inner.1 + rest.1)
    }
}

/// What `place` returns.
pub open spec fn placement_of(t: Tree, area: Rect) -> (Seq<(PaneId, Rect)>, Seq<Separator>) {
    if area.w > 0 && area.h > 0 {
        place_tree(t, area)
    } else {
        (Seq::empty(), Seq::empty())
    }
}

/// The rectangles of every pane that fits in `area`, and the separators.
pub fn place(root: &Node, area: Rect) -> (out: Placement)
    ensures
        (out.panes@, out.separators@) == placement_of(root@, area),
{
    let mut out = Placement { panes: Vec::new(), separators: Vec::new() };
    if area.w > 0 && area.h > 0 {
        place_node(root, area, &mut out);
    }
    assert(out.panes@ =~= placement_of(root@, area).0);
    assert(out.separators@ =~= placement_of(root@, area).1);
    out
}

fn place_node(node: &Node, area: Rect, out: &mut Placement)
    ensures
        final(out).panes@ == old(out).panes@ + place_tree(node@, area).0,
        final(out).separators@ == old(out).separators@ + place_tree(node@, area).1,
    decreases node,
{
    match node {
        Node::Pane(p) => {
            out.panes.push((*p, area));
            assert(out.separators@ =~= old(out).separators@ + Seq::<Separator>::empty());
        },
        Node::Split { axis, children } => {
            proof {
                assert(decreases_to!(*node => node->children));
            }
            place_split(*axis, children, area, out);
        },
    }
}

/// The panes and separators of a split of `children` along `axis` placed in
/// `area`, appended to `out`.
fn place_split(axis: Axis, children: &Vec<(u32, Node)>, area: Rect, out: &mut Placement)
    ensures
        final(out).panes@ == old(out).panes@ + place_tree(Tree::Branch(axis, children_view(children@)), area).0,
        final(out).separators@ == old(out).separators@ + place_tree(Tree::Branch(axis, children_view(children@)), area).1,
    decreases children,
{
        proof {
            lemma_children_view(children@);
        }
        let ghost cv = children_view(children@);
        let sizes = split_sizes_exec(children, axis, area);
        let ghost start_panes = out.panes@;
        let ghost start_seps = out.separators@;
        let mut offset: u128 = 0;
        let mut first = true;
        let mut i: usize = 0;
        assert(cv.skip(0) =~= cv);
        assert(sizes@.skip(0) =~= sizes@);
        while i < children.len()
            invariant
                0 <= i <= children.len(),
                cv == children_view(children@),
                cv.len() == children@.len(),
                forall|j: int| 0 <= j < cv.len() ==> #[trigger] cv[j] == (children@[j].0, node_view(children@[j].1)),
                sizes@ == split_sizes(cv, axis, area),
                sizes@.len() == cv.len(),
                offset <= i * 0x1_0001,
                ({
                    let whole = place_children(cv, sizes@, axis, area, 0, true);
                    let rest = place_children(cv.skip(i as int), sizes@.skip(i as int), axis, area, offset as int, first);
                    &&& start_panes + whole.0 == out.panes@ + rest.0
                    &&& start_seps + whole.1 == out.separators@ + rest.1
                }),
            decreases children.len() - i,
        {
            proof {
                let c = children@[i as int];
                assert(decreases_to!(*children => children@));
                assert(decreases_to!(children@ => c));
                assert(decreases_to!(c => c.1));
                assert(cv.skip(i as int).drop_first() =~= cv.skip(i + 1));
                assert(sizes@.skip(i as int).drop_first() =~= sizes@.skip(i + 1));
                assert(cv.skip(i as int)[0] == cv[i as int]);
                assert(sizes@.skip(i as int)[0] == sizes@[i as int]);
            }
            let size = sizes[i];
            if size != 0 {
                let ghost before_seps = out.separators@;
                if !first {
                    let separator = match axis {
                        Axis::Horizontal => Separator {
                            vertical: true,
                            x: (area.x as u128 + offset) as u16,
                            y: area.y,
                            len: area.h,
                        },
                        Axis::Vertical => Separator {
                            vertical: false,
                            x: area.x,
                            y: (area.y as u128 + offset) as u16,
                            len: area.w,
                        },
                    };
                    out.separators.push(separator);
                    offset = offset + 1;
                }
                first = false;
                let rect = match axis {
                    Axis::Horizontal => Rect { x: (area.x as u128 + offset) as u16, w: size, y: area.y, h: area.h },
                    Axis::Vertical => Rect { y: (area.y as u128 + offset) as u16, h: size, x: area.x, w: area.w },
                };
                place_node(&children[i].1, rect, out);
                offset = offset + size as u128;
            }
            i += 1;
        }
        proof {
            assert(cv.skip(i as int) =~= Seq::<(u32, Tree)>::empty());
        }
        assert(out.panes@ =~= start_panes + place_tree(Tree::Branch(axis, cv), area).0);
        assert(out.separators@ =~= start_seps + place_tree(Tree::Branch(axis, cv), area).1);
}

/// The sizes of a split's children along its axis in `area`.
fn split_sizes_exec(children: &Vec<(u32, Node)>, axis: Axis, area: Rect) -> (sizes: Vec<u16>)
    ensures
        sizes@ == split_sizes(children_view(children@), axis, area),
        sizes@.len() == children@.len(),
{
    proof {
        lemma_children_view(children@);
    }
    let ghost cv = children_view(children@);
    let along = match axis {
        Axis::Horizontal => area.w,
        Axis::Vertical => area.h,
    };
    let n = children.len();
    let separators: u16 = if n >= 1 { (n - 1) as u16 } else { 0 };
    let mut weights: Vec<u32> = Vec::new();
    let mut mins: Vec<u16> = Vec::new();
    let mut needed: u16 = separators;
    let mut i: usize = 0;
    while i < n
        invariant
            0 <= i <= n,
            n == children.len(),
            cv == children_view(children@),
            cv.len() == n,
            forall|j: int| 0 <= j < cv.len() ==> #[trigger] cv[j] == (children@[j].0, node_view(children@[j].1)),
            weights@.len() == i,
            mins@.len() == i,
            forall|j: int| 0 <= j < i ==> #[trigger] weights@[j] == cv[j].0,
            forall|j: int| 0 <= j < i ==> #[trigger] mins@[j] == min_len(cv[j].1, axis),
            needed == (if separators + prefix_sum(u16_ints(mins@), i as int) > 0xffff { 0xffffu16 } else { (separators + prefix_sum(u16_ints(mins@), i as int)) as u16 }),
        decreases n - i,
    {
        let m = children[i].1.min_len(axis);
        proof {
            lemma_prefix_sum_bound(mins@, i as int);
        }
        let ghost before = mins@;
        weights.push(children[i].0);
        mins.push(m);
        proof {
            assert forall|k: int| 0 <= k <= i implies prefix_sum(u16_ints(mins@), k) == prefix_sum(u16_ints(before), k) by {
                lemma_prefix_sum_prefix(mins@, before, k);
            }
        }
        needed = needed.saturating_add(m);
        i += 1;
    }
    assert(weights@ =~= child_weights(cv));
    assert(mins@ =~= child_mins(cv, axis));
    proof {
        lemma_prefix_sum_bound(mins@, n as int);
    }
    if along >= needed {
        distribute(along - separators, &weights, &mins)
    } else {
        let mut costs: Vec<u16> = Vec::new();
        let mut j: usize = 0;
        while j < n
            invariant
                0 <= j <= n,
                n == mins.len(),
                costs@.len() == j,
                forall|k: int| 0 <= k < j ==> #[trigger] costs@[k] as int == child_costs(mins@)[k],
            decreases n - j,
        {
            let extra: u16 = if j > 0 { 1 } else { 0 };
            costs.push(mins[j].saturating_add(extra));
            j += 1;
        }
        proof {
            assert(u16_ints(costs@) =~= child_costs(mins@));
        }
        squeeze_sizes(along, &costs, &mins)
    }
}

pub proof fn lemma_prefix_sum_prefix(a: Seq<u16>, b: Seq<u16>, k: int)
    requires
        0 <= k <= b.len(),
        b.len() <= a.len(),
        forall|j: int| 0 <= j < b.len() ==> a[j] == b[j],
    ensures
        prefix_sum(u16_ints(a), k) == prefix_sum(u16_ints(b), k),
    decreases k,
{
    if k > 0 {
        lemma_prefix_sum_prefix(a, b, k - 1);
    }
}


/// The rectangles that `panes` were placed at, in order, skipping those not
/// placed.
pub open spec fn found_rects(panes: Seq<PaneId>, placed: Seq<(PaneId, Rect)>) -> Seq<Rect>
    decreases panes.len(),
{
    if panes.len() == 0 {
        Seq::empty()
    } else {
        let rest = found_rects(panes.drop_first(), placed);
        match first_rect(placed, panes[0]) {
            Some(r) => seq![r] + rest,
            None => rest,
        }
    }
}

pub open spec fn min_int(a: int, b: int) -> int {
    if a <= b { a } else { b }
}

pub open spec fn max_int(a: int, b: int) -> int {
    if a >= b { a } else { b }
}

/// The bounding box of some rectangles: left, top, right and bottom.
pub open spec fn bounds(rs: Seq<Rect>) -> (int, int, int, int)
    decreases rs.len(),
{
    if rs.len() <= 1 {
        (rs[0].x as int, rs[0].y as int, rs[0].x + rs[0].w, rs[0].y + rs[0].h)
    } else {
        let b = bounds(rs.drop_last());
        let r = rs.last();
        (min_int(b.0, r.x as int), min_int(b.1, r.y as int), max_int(b.2, r.x + r.w), max_int(b.3, r.y + r.h))
    }
}

/// The rectangle a child of a split got, from a placement of the split.
pub open spec fn child_rect(axis: Axis, t: Tree, area: Rect, placed: Seq<(PaneId, Rect)>) -> Rect {
    let rs = found_rects(panes_of(t), placed);
    if rs.len() == 0 {
        Rect { x: area.x, y: area.y, w: 0, h: 0 }
    } else {
        let b = bounds(rs);
        match axis {
            Axis::Horizontal => Rect { x: b.0 as u16, y: area.y, w: (b.2 - b.0) as u16, h: area.h },
            Axis::Vertical => Rect { x: area.x, y: b.1 as u16, w: area.w, h: (b.3 - b.1) as u16 },
        }
    }
}

/// The index of the first child holding `pane`, or -1.
pub open spec fn holder(cs: Seq<(u32, Tree)>, pane: PaneId) -> int
    decreases cs.len(),
{
    if cs.len() == 0 {
        -1
    } else if panes_of(cs[0].1).contains(pane) {
        0
    } else {
        let r = holder(cs.drop_first(), pane);
        if r < 0 { -1 } else { r + 1 }
    }
}

pub proof fn lemma_holder(cs: Seq<(u32, Tree)>, pane: PaneId)
    ensures
        -1 <= holder(cs, pane) < cs.len(),
        holder(cs, pane) >= 0 ==> panes_of(cs[holder(cs, pane)].1).contains(pane),
        holder(cs, pane) >= 0 ==> forall|j: int| 0 <= j < holder(cs, pane) ==> !panes_of(#[trigger] cs[j].1).contains(pane),
        holder(cs, pane) < 0 ==> forall|j: int| 0 <= j < cs.len() ==> !panes_of(#[trigger] cs[j].1).contains(pane),
    decreases cs.len(),
{
    if cs.len() > 0 {
        lemma_holder(cs.drop_first(), pane);
        assert forall|j: int| 1 <= j < cs.len() implies cs[j] == cs.drop_first()[j - 1] by {}
    }
}

/// Whether a move in `direction` goes toward the start of its axis.
pub open spec fn toward_start(direction: Direction) -> bool {
    direction == Direction::Left || direction == Direction::Up
}

/// The child that grows and the child that shrinks when the child at
/// `index` of `n` moves its border in `direction`, if it has a sibling.
pub open spec fn grow_shrink(index: int, n: int, direction: Direction) -> Option<(int, int)> {
    if toward_start(direction) {
        if index > 0 {
            Some((index, index - 1))
        } else if index + 1 < n {
            Some((index + 1, index))
        } else {
            None
        }
    } else if index + 1 < n {
        Some((index, index + 1))
    } else if index > 0 {
        Some((index - 1, index))
    } else {
        None
    }
}

/// A split of `cs` along `axis` whose children got `rects`, after the
/// child at `index` moved a border by up to `amount` cells in `direction`:
/// the weights become the new sizes.
pub open spec fn border_moved(axis: Axis, cs: Seq<(u32, Tree)>, rects: Seq<Rect>, index: int, direction: Direction, amount: u16) -> (Tree, bool) {
    let sizes = Seq::new(rects.len(), |i: int| along_of(axis, rects[i]));
    match grow_shrink(index, cs.len() as int, direction) {
        None => (Tree::Branch(axis, cs), false),
        Some((grow, shrink)) => {
            let min = min_len(cs[shrink].1, axis);
            let available = if sizes[shrink] >= min { sizes[shrink] - min } else { 0 };
            let moved = if amount <= available { amount as int } else { available };
            if moved == 0 {
                (Tree::Branch(axis, cs), true)
            } else {
                (Tree::Branch(axis, Seq::new(cs.len(), |i: int| {
                    let size = if i == grow { sizes[i] + moved } else if i == shrink { sizes[i] - moved } else { sizes[i] as int };
                    ((if size >= 1 { size } else { 1 }) as u32, cs[i].1)
                })), true)
            }
        },
    }
}

/// The length of each rectangle along `axis`.
pub open spec fn rect_sizes(axis: Axis, rects: Seq<Rect>) -> Seq<u16> {
    Seq::new(rects.len(), |i: int| along_of(axis, rects[i]))
}

/// The children with new weights: their sizes, but the border after child
/// `b` moved by `delta` cells (toward the end when positive), so child `b`
/// gains `delta` and child `b + 1` loses it; no weight below 1.
pub open spec fn border_shifted(cs: Seq<(u32, Tree)>, sizes: Seq<u16>, b: int, delta: int) -> Seq<(u32, Tree)> {
    Seq::new(cs.len(), |i: int| {
        let size = if i == b { sizes[i] + delta } else if i == b + 1 { sizes[i] - delta } else { sizes[i] as int };
        ((if size >= 1 { size } else { 1 }) as u32, cs[i].1)
    })
}

/// A border moved for the child at `index` is one of its own two borders,
/// and it moves the way asked: for Right and Down the child before it
/// grows and the one after shrinks, for Left and Up the other way round,
/// by at most `amount` cells.
pub proof fn lemma_border_moves_the_way_asked(
    axis: Axis,
    cs: Seq<(u32, Tree)>,
    rects: Seq<Rect>,
    index: int,
    direction: Direction,
    amount: u16,
)
    requires
        rects.len() == cs.len(),
        0 <= index < cs.len(),
    ensures
        border_moved(axis, cs, rects, index, direction, amount).0 != Tree::Branch(axis, cs) ==> exists|b: int, delta: int|
            0 <= b && b + 1 < cs.len() && (b == index || b + 1 == index) && (toward_start(direction) ==> -amount
                <= delta <= -1) && (!toward_start(direction) ==> 1 <= delta <= amount) && border_moved(
                axis,
                cs,
                rects,
                index,
                direction,
                amount,
            ).0 == Tree::Branch(axis, #[trigger] border_shifted(cs, rect_sizes(axis, rects), b, delta)),
{
    let sizes = rect_sizes(axis, rects);
    let r = border_moved(axis, cs, rects, index, direction, amount).0;
    match grow_shrink(index, cs.len() as int, direction) {
        None => {},
        Some((grow, shrink)) => {
            let min = min_len(cs[shrink].1, axis);
            let available = if sizes[shrink] >= min { sizes[shrink] - min } else { 0 };
            let moved = if amount <= available { amount as int } else { available };
            if moved != 0 {
                let b = if grow < shrink { grow } else { shrink };
                let delta = if toward_start(direction) { -moved } else { moved };
                assert(r->Branch_1 =~= border_shifted(cs, sizes, b, delta));
                assert(r == Tree::Branch(axis, border_shifted(cs, sizes, b, delta)));
            }
        },
    }
}

/// The rectangles the children of a split got when it was placed in `area`.
pub open spec fn split_child_rects(axis: Axis, cs: Seq<(u32, Tree)>, area: Rect) -> Seq<Rect> {
    Seq::new(cs.len(), |i: int| child_rect(axis, cs[i].1, area, placement_of(Tree::Branch(axis, cs), area).0))
}

/// What `resize` makes of a tree, and whether it found a border to move.
pub open spec fn resize_tree(t: Tree, area: Rect, pane: PaneId, direction: Direction, amount: u16) -> (Tree, bool)
    decreases t,
{
    match t {
        Tree::Leaf(_) => (t, false),
        Tree::Branch(axis, cs) => {
            let index = holder(cs, pane);
            if index < 0 || index >= cs.len() {
                (t, false)
            } else {
                let placed = placement_of(t, area).0;
                let rects = Seq::new(cs.len(), |i: int| child_rect(axis, cs[i].1, area, placed));
                let inner = resize_tree(cs[index].1, rects[index], pane, direction, amount);
                if inner.1 {
                    (Tree::Branch(axis, cs.update(index, (cs[index].0, inner.0))), true)
                } else if axis != axis_of(direction) {
                    (t, false)
                } else {
                    border_moved(axis, cs, rects, index, direction, amount)
                }
            }
        },
    }
}


/// The rectangle a child of a split got, from a placement of the split.
fn child_rect_exec(axis: Axis, child: &Node, area: Rect, placement: &Placement) -> (r: Rect)
    ensures
        r == child_rect(axis, child@, area, placement.panes@),
{
    let panes = child.panes();
    let ghost placed = placement.panes@;
    let mut rects: Vec<Rect> = Vec::new();
    let mut i: usize = 0;
    assert(panes@.skip(0) =~= panes@);
    while i < panes.len()
        invariant
            0 <= i <= panes.len(),
            placed == placement.panes@,
            found_rects(panes@, placed) == rects@ + found_rects(panes@.skip(i as int), placed),
        decreases panes.len() - i,
    {
        assert(panes@.skip(i as int).drop_first() =~= panes@.skip(i + 1));
        assert(panes@.skip(i as int)[0] == panes@[i as int]);
        match placement.rect(panes[i]) {
            Some(r) => {
                rects.push(r);
                assert(found_rects(panes@, placed) =~= rects@ + found_rects(panes@.skip(i + 1), placed));
            },
            None => {},
        }
        i += 1;
    }
    assert(panes@.skip(i as int) =~= Seq::<PaneId>::empty());
    assert(rects@ + Seq::<Rect>::empty() =~= rects@);
    let ghost rs = rects@;
    if rects.len() == 0 {
        return Rect { x: area.x, y: area.y, w: 0, h: 0 };
    }
    let first = rects[0];
    let mut x0: u32 = first.x as u32;
    let mut y0: u32 = first.y as u32;
    let mut x1: u32 = first.right();
    let mut y1: u32 = first.bottom();
    let mut k: usize = 1;
    assert(rs.take(1).len() == 1);
    while k < rects.len()
        invariant
            1 <= k <= rects.len(),
            rs == rects@,
            (x0 as int, y0 as int, x1 as int, y1 as int) == bounds(rs.take(k as int)),
            x0 <= 0xffff,
            y0 <= 0xffff,
            x1 <= 0x1_fffe,
            y1 <= 0x1_fffe,
        decreases rects.len() - k,
    {
        let r = rects[k];
        assert(rs.take(k + 1).drop_last() =~= rs.take(k as int));
        assert(rs.take(k + 1).last() == r);
        if (r.x as u32) < x0 {
            x0 = r.x as u32;
        }
        if (r.y as u32) < y0 {
            y0 = r.y as u32;
        }
        if r.right() > x1 {
            x1 = r.right();
        }
        if r.bottom() > y1 {
            y1 = r.bottom();
        }
        k += 1;
    }
    assert(rs.take(k as int) =~= rs);
    proof {
        lemma_bounds_ordered(rs);
    }
    match axis {
        Axis::Horizontal => Rect { x: x0 as u16, y: area.y, w: (x1 - x0) as u16, h: area.h },
        Axis::Vertical => Rect { x: area.x, y: y0 as u16, w: area.w, h: (y1 - y0) as u16 },
    }
}

pub proof fn lemma_bounds_ordered(rs: Seq<Rect>)
    requires
        rs.len() >= 1,
    ensures
        bounds(rs).0 <= bounds(rs).2,
        bounds(rs).1 <= bounds(rs).3,
    decreases rs.len(),
{
    if rs.len() > 1 {
        lemma_bounds_ordered(rs.drop_last());
    }
}


/// Resizes `pane` by `amount` cells in `direction`, as placed in `area`:
/// the nearest split along the direction's axis that has a sibling on that
/// side moves the border between them. Weights become the new cell sizes.
pub fn resize(root: &mut Node, area: Rect, pane: PaneId, direction: Direction, amount: u16) -> (moved: bool)
    ensures
        (final(root)@, moved) == resize_tree(old(root)@, area, pane, direction, amount),
{
    let mut taken = Node::Pane(pane);
    std::mem::swap(root, &mut taken);
    let (node, moved) = Node::resized(taken, area, pane, direction, amount);
    *root = node;
    moved
}

impl Node {
    #[verifier::spinoff_prover]
    #[verifier::rlimit(40)]
    fn resized(node: Node, area: Rect, pane: PaneId, direction: Direction, amount: u16) -> (res: (Node, bool))
        ensures
            (res.0@, res.1) == resize_tree(node@, area, pane, direction, amount),
        decreases node,
    {
        match node {
            Node::Pane(p) => (Node::Pane(p), false),
            Node::Split { axis, children } => {
                let ghost initial = children@;
                proof {
                    lemma_children_view(initial);
                    lemma_holder(children_view(initial), pane);
                }
                let ghost cv = children_view(initial);
                let n = children.len();
                // The child holding the pane.
                let mut index: usize = 0;
                while index < n && !children[index].1.contains(pane)
                    invariant
                        0 <= index <= n,
                        n == children.len(),
                        children@ == initial,
                        cv == children_view(initial),
                        cv.len() == n,
                        forall|j: int| 0 <= j < cv.len() ==> #[trigger] cv[j] == (initial[j].0, node_view(initial[j].1)),
                        forall|j: int| 0 <= j < index ==> !panes_of(#[trigger] cv[j].1).contains(pane),
                    decreases n - index,
                {
                    index += 1;
                }
                if index == n {
                    assert(holder(cv, pane) < 0);
                    return (Node::Split { axis, children }, false);
                }
                assert(panes_of(cv[index as int].1).contains(pane));
                assert(holder(cv, pane) == index as int);
                // Deeper splits first: the border nearest the pane moves.
                let mut placement = Placement { panes: Vec::new(), separators: Vec::new() };
                if area.w > 0 && area.h > 0 {
                    place_split(axis, &children, area, &mut placement);
                }
                let ghost placed = placement_of(Tree::Branch(axis, cv), area).0;
                assert(placement.panes@ =~= placed);
                let mut rects: Vec<Rect> = Vec::new();
                let mut i: usize = 0;
                while i < n
                    invariant
                        0 <= i <= n,
                        n == children.len(),
                        children@ == initial,
                        cv == children_view(initial),
                        cv.len() == n,
                        forall|j: int| 0 <= j < cv.len() ==> #[trigger] cv[j] == (initial[j].0, node_view(initial[j].1)),
                        placement.panes@ == placed,
                        rects@.len() == i,
                        forall|j: int| 0 <= j < i ==> #[trigger] rects@[j] == child_rect(axis, cv[j].1, area, placed),
                    decreases n - i,
                {
                    rects.push(child_rect_exec(axis, &children[i].1, area, &placement));
                    i += 1;
                }
                let ghost rs = Seq::new(cv.len(), |j: int| child_rect(axis, cv[j].1, area, placed));
                assert(rects@ =~= rs);
                proof {
                    let c = initial[index as int];
                    assert(decreases_to!(node => node->children));
                    assert(decreases_to!(node->children => initial));
                    assert(decreases_to!(initial => c));
                    assert(decreases_to!(c => c.1));
                }
                let mut children = children;
                let (weight, child) = children.remove(index);
                assert(child == initial[index as int].1);
                let (child, inner) = Node::resized(child, rects[index], pane, direction, amount);
                children.insert(index, (weight, child));
                proof {
                    assert(children@ =~= initial.update(index as int, (weight, child)));
                    lemma_children_view_update(initial, index as int, (weight, child));
                }
                if inner {
                    return (Node::Split { axis, children }, true);
                }
                assert(children_view(children@) =~= cv);
                let same_axis = match (axis, direction) {
                    (Axis::Horizontal, Direction::Left) | (Axis::Horizontal, Direction::Right) => true,
                    (Axis::Vertical, Direction::Up) | (Axis::Vertical, Direction::Down) => true,
                    _ => false,
                };
                if !same_axis {
                    return (Node::Split { axis, children }, false);
                }
                let ghost moved_spec = border_moved(axis, cv, rs, index as int, direction, amount);
                let start = match direction {
                    Direction::Left | Direction::Up => true,
                    Direction::Right | Direction::Down => false,
                };
                // Grow toward the direction when there is a neighbour that
                // way; else shrink from the far side, moving the other
                // border the same way.
                let (grow, shrink) = if start {
                    if index > 0 {
                        (index, index - 1)
                    } else if index + 1 < n {
                        (index + 1, index)
                    } else {
                        return (Node::Split { axis, children }, false);
                    }
                } else if index + 1 < n {
                    (index, index + 1)
                } else if index > 0 {
                    (index - 1, index)
                } else {
                    return (Node::Split { axis, children }, false);
                };
                assert(grow_shrink(index as int, n as int, direction) == Some((grow as int, shrink as int)));
                let min = children[shrink].1.min_len(axis);
                let shrink_size = along_exec(axis, rects[shrink]);
                let available: u16 = if shrink_size >= min { shrink_size - min } else { 0 };
                let moved: u16 = if amount <= available { amount } else { available };
                if moved == 0 {
                    return (Node::Split { axis, children }, true);
                }
                let ghost sizes = Seq::new(rs.len(), |j: int| along_of(axis, rs[j]));
                let ghost expected = Seq::new(cv.len(), |j: int| {
                    let size = if j == grow { sizes[j] + moved } else if j == shrink { sizes[j] - moved } else { sizes[j] as int };
                    ((if size >= 1 { size } else { 1 }) as u32, cv[j].1)
                });
                assert(moved_spec.0->Branch_1 == expected);
                let mut resized: Vec<(u32, Node)> = Vec::new();
                let mut rest = children;
                let mut i: usize = 0;
                let ghost now = rest@;
                while rest.len() > 0
                    invariant
                        0 <= i <= n,
                        n == rects.len(),
                        rest@ == now.skip(i as int),
                        now.len() == n,
                        children_view(now) == cv,
                        cv.len() == n,
                        rects@ == rs,
                        rs.len() == n,
                        0 <= grow < n,
                        0 <= shrink < n,
                        grow != shrink,
                        moved <= along_of(axis, rs[shrink as int]),
                        moved_spec == border_moved(axis, cv, rs, index as int, direction, amount),
                        grow_shrink(index as int, n as int, direction) == Some((grow as int, shrink as int)),
                        moved as int == (if amount <= (if along_of(axis, rs[shrink as int]) >= min_len(cv[shrink as int].1, axis) { along_of(axis, rs[shrink as int]) - min_len(cv[shrink as int].1, axis) } else { 0 }) { amount as int } else { (if along_of(axis, rs[shrink as int]) >= min_len(cv[shrink as int].1, axis) { along_of(axis, rs[shrink as int]) - min_len(cv[shrink as int].1, axis) } else { 0 }) }),
                        moved > 0,
                        sizes == Seq::new(rs.len(), |j: int| along_of(axis, rs[j])),
                        expected == Seq::new(cv.len(), |j: int| {
                            let size = if j == grow { sizes[j] + moved } else if j == shrink { sizes[j] - moved } else { sizes[j] as int };
                            ((if size >= 1 { size } else { 1 }) as u32, cv[j].1)
                        }),
                        resized@.len() == i,
                        forall|j: int| 0 <= j < i ==> #[trigger] children_view(resized@)[j] == expected[j],
                        children_view(resized@).len() == i,
                    decreases rest.len(),
                {
                    proof {
                        lemma_children_view(now);
                    }
                    assert(rest@.len() == n - i);
                    let (_, child) = rest.remove(0);
                    assert(child == now[i as int].1);
                    let size = along_exec(axis, rects[i]);
                    assert(rects@[i as int] == rs[i as int]);
                    let size: u32 = if i == grow {
                        size as u32 + moved as u32
                    } else if i == shrink {
                        (size - moved) as u32
                    } else {
                        size as u32
                    };
                    let weight: u32 = if size >= 1 { size } else { 1 };
                    let ghost r0 = resized@;
                    resized.push((weight, child));
                    proof {
                        lemma_children_view_push(r0, (weight, child));
                        lemma_children_view(resized@);
                        assert(cv[i as int].1 == node_view(child));
                        assert(expected[i as int] == (weight, node_view(child)));
                    }
                    i += 1;
                }
                proof {
                    lemma_children_view(resized@);
                    assert(children_view(resized@) =~= expected);
                }
                (Node::Split { axis, children: resized }, true)
            },
        }
    }
}


fn along_exec(axis: Axis, r: Rect) -> (l: u16)
    ensures
        l == along_of(axis, r),
{
    match axis {
        Axis::Horizontal => r.w,
        Axis::Vertical => r.h,
    }
}


/// Resizing a pane that sits directly in a split along the direction's
/// axis moves one of the pane's own borders the way asked: for Right and
/// Down the child before the border grows by 1 to `amount` cells and the
/// one after shrinks, for Left and Up the other way round; the weights
/// become the children's new sizes.
pub proof fn lemma_resize_moves_the_way_asked(
    axis: Axis,
    cs: Seq<(u32, Tree)>,
    area: Rect,
    pane: PaneId,
    direction: Direction,
    amount: u16,
)
    requires
        0 <= holder(cs, pane) < cs.len(),
        cs[holder(cs, pane)].1 == Tree::Leaf(pane),
        axis == axis_of(direction),
    ensures
        resize_tree(Tree::Branch(axis, cs), area, pane, direction, amount).0 != Tree::Branch(axis, cs) ==> exists|
            b: int,
            delta: int,
        |
            0 <= b && b + 1 < cs.len() && (b == holder(cs, pane) || b + 1 == holder(cs, pane)) && (toward_start(
                direction,
            ) ==> -amount <= delta <= -1) && (!toward_start(direction) ==> 1 <= delta <= amount) && resize_tree(
                Tree::Branch(axis, cs),
                area,
                pane,
                direction,
                amount,
            ).0 == Tree::Branch(
                axis,
                #[trigger] border_shifted(cs, rect_sizes(axis, split_child_rects(axis, cs, area)), b, delta),
            ),
{
    let t = Tree::Branch(axis, cs);
    let index = holder(cs, pane);
    let placed = placement_of(t, area).0;
    let rects = Seq::new(cs.len(), |i: int| child_rect(axis, cs[i].1, area, placed));
    assert(rects =~= split_child_rects(axis, cs, area));
    assert(resize_tree(cs[index].1, rects[index], pane, direction, amount).1 == false);
    assert(resize_tree(t, area, pane, direction, amount) == border_moved(axis, cs, rects, index, direction, amount));
    lemma_border_moves_the_way_asked(axis, cs, rects, index, direction, amount);
}

}
