//! A breadth-first linearization of the syntax tree: a vector of node layers
//! in which every child is replaced by the index at which that child appears,
//! and every node's index is strictly less than the indices of its children,
//! so that a reverse walk visits children before parents.

use vstd::prelude::*;
use crate::ast::{AstNode, CharacterClass, ClassBracketed, RepetitionKind};

verus! {

/// The index of a layer within the linearized tree.
#[derive(Clone, PartialEq, Eq, Copy, Debug, Structural)]
pub struct AstIdx(pub usize);

/// One tree node with its child slots generic: indices in a linearization,
/// or whatever a mapping turns them into.
#[derive(Debug)]
pub enum AstNodeLayer<A> {
    Alternation { left: A, right: A },
    Concat { left: A, right: A },
    Repetition { kind: RepetitionKind, child: A },
    Dot,
    CharacterClass(CharacterClass),
    ClassBracketed(ClassBracketed),
    Literal { value: char },
}

impl<A> AstNodeLayer<A> {
    /// The same layer with each child slot passed through `f`.
    pub fn map<B, F: Fn(A) -> B>(self, f: F) -> (r: AstNodeLayer<B>)
        requires
            forall|x: A| #[trigger] f.requires((x,)),
        ensures
            (self matches AstNodeLayer::Alternation { left, right } ==> (
            r matches AstNodeLayer::Alternation { left: l2, right: r2 } && call_ensures(
                f,
                (left,),
                l2,
            ) && call_ensures(f, (right,), r2))),
            (self matches AstNodeLayer::Concat { left, right } ==> (
            r matches AstNodeLayer::Concat { left: l2, right: r2 } && call_ensures(f, (left,), l2)
                && call_ensures(f, (right,), r2))),
            (self matches AstNodeLayer::Repetition { kind, child } ==> (
            r matches AstNodeLayer::Repetition { kind: k2, child: c2 } && k2 == kind
                && call_ensures(f, (child,), c2))),
            (self matches AstNodeLayer::Dot ==> r matches AstNodeLayer::Dot),
            (self matches AstNodeLayer::CharacterClass(cc) ==> (
            r matches AstNodeLayer::CharacterClass(cc2) && cc2 == cc)),
            (self matches AstNodeLayer::ClassBracketed(cb) ==> (
            r matches AstNodeLayer::ClassBracketed(cb2) && cb2.negated == cb.negated
                && cb2.items@ == cb.items@)),
            (self matches AstNodeLayer::Literal { value } ==> (
            r matches AstNodeLayer::Literal { value: v2 } && v2 == value)),
    {
        match self {
            AstNodeLayer::Alternation { left, right } => AstNodeLayer::Alternation {
                left: f(left),
                right: f(right),
            },
            AstNodeLayer::Concat { left, right } => AstNodeLayer::Concat {
                left: f(left),
                right: f(right),
            },
            AstNodeLayer::Repetition { kind, child } => AstNodeLayer::Repetition {
                kind,
                child: f(child),
            },
            AstNodeLayer::Dot => AstNodeLayer::Dot,
            AstNodeLayer::CharacterClass(cc) => AstNodeLayer::CharacterClass(cc),
            AstNodeLayer::ClassBracketed(cb) => AstNodeLayer::ClassBracketed(cb),
            AstNodeLayer::Literal { value } => AstNodeLayer::Literal { value },
        }
    }
}

/// A breadth-first linearization of a tree.
#[derive(Debug)]
pub struct AstTopo {
    pub elems: Vec<AstNodeLayer<AstIdx>>,
}

/// The indices a layer points at.
pub open spec fn layer_children_ordered(layer: AstNodeLayer<AstIdx>, k: int, n: int) -> bool {
    match layer {
        AstNodeLayer::Alternation { left, right } => k < left.0 < n && k < right.0 < n,
        AstNodeLayer::Concat { left, right } => k < left.0 < n && k < right.0 < n,
        AstNodeLayer::Repetition { kind, child } => k < child.0 < n,
        _ => true,
    }
}

/// Every layer's children sit strictly after it and inside the vector.
pub open spec fn topo_wf(elems: Seq<AstNodeLayer<AstIdx>>) -> bool {
    forall|k: int|
        0 <= k < elems.len() ==> layer_children_ordered(#[trigger] elems[k], k, elems.len() as int)
}

/// Equality of trees by content: exact on every form, with the items of a
/// bracketed class compared element for element. (Rebuilding a tree cannot
/// reproduce the identical items vector, only one with the same elements.)
pub open spec fn ast_like(a: AstNode, b: AstNode) -> bool
    decreases a,
{
    match a {
        AstNode::Alternation(x) => b matches AstNode::Alternation(y) && ast_like(*x.left, *y.left)
            && ast_like(*x.right, *y.right),
        AstNode::Concat(x) => b matches AstNode::Concat(y) && ast_like(*x.left, *y.left)
            && ast_like(*x.right, *y.right),
        AstNode::Repetition(x) => b matches AstNode::Repetition(y) && x.kind == y.kind && ast_like(
            *x.child,
            *y.child,
        ),
        AstNode::Dot => b == AstNode::Dot,
        AstNode::CharacterClass(x) => b matches AstNode::CharacterClass(y) && *x == *y,
        AstNode::ClassBracketed(x) => b matches AstNode::ClassBracketed(y) && x.negated
            == y.negated && x.items@ == y.items@,
        AstNode::Literal(x) => b matches AstNode::Literal(y) && *x == *y,
    }
}

/// The layer at `k` stands for the tree `trees[k]`: same form, and its child
/// indices point at positions standing for the child trees.
pub open spec fn layer_mirrors(
    elems: Seq<AstNodeLayer<AstIdx>>,
    trees: Seq<AstNode>,
    k: int,
) -> bool {
    0 <= k < elems.len() && elems.len() <= trees.len() && match elems[k] {
        AstNodeLayer::Alternation { left, right } => {
            &&& trees[k] matches AstNode::Alternation(b) && left.0 < trees.len() && right.0
                < trees.len() && trees[left.0 as int] == *b.left && trees[right.0 as int]
                == *b.right
        },
        AstNodeLayer::Concat { left, right } => {
            &&& trees[k] matches AstNode::Concat(b) && left.0 < trees.len() && right.0
                < trees.len() && trees[left.0 as int] == *b.left && trees[right.0 as int]
                == *b.right
        },
        AstNodeLayer::Repetition { kind, child } => {
            &&& trees[k] matches AstNode::Repetition(b) && child.0 < trees.len() && b.kind == kind
                && trees[child.0 as int] == *b.child
        },
        AstNodeLayer::Dot => trees[k] == AstNode::Dot,
        AstNodeLayer::CharacterClass(cc) => trees[k] == AstNode::CharacterClass(Box::new(cc)),
        AstNodeLayer::ClassBracketed(cb) => trees[k] matches AstNode::ClassBracketed(b)
            && cb.negated == b.negated && cb.items@ == b.items@,
        AstNodeLayer::Literal { value } => trees[k] == AstNode::Literal(
            Box::new(crate::ast::Literal { value }),
        ),
    }
}

/// Reading the tree back out of the linearization, starting at layer `k`.
pub open spec fn denote(elems: Seq<AstNodeLayer<AstIdx>>, k: int) -> AstNode
    decreases elems.len() - k,
    when topo_wf(elems) && 0 <= k < elems.len()
{
    match elems[k] {
        AstNodeLayer::Alternation { left, right } => AstNode::Alternation(
            Box::new(
                crate::ast::Alternation {
                    left: Box::new(denote(elems, left.0 as int)),
                    right: Box::new(denote(elems, right.0 as int)),
                },
            ),
        ),
        AstNodeLayer::Concat { left, right } => AstNode::Concat(
            Box::new(
                crate::ast::Concat {
                    left: Box::new(denote(elems, left.0 as int)),
                    right: Box::new(denote(elems, right.0 as int)),
                },
            ),
        ),
        AstNodeLayer::Repetition { kind, child } => AstNode::Repetition(
            Box::new(
                crate::ast::Repetition { kind, child: Box::new(denote(elems, child.0 as int)) },
            ),
        ),
        AstNodeLayer::Dot => AstNode::Dot,
        AstNodeLayer::CharacterClass(cc) => AstNode::CharacterClass(Box::new(cc)),
        AstNodeLayer::ClassBracketed(cb) => AstNode::ClassBracketed(Box::new(cb)),
        AstNodeLayer::Literal { value } => AstNode::Literal(
            Box::new(crate::ast::Literal { value }),
        ),
    }
}

/// The number of nodes in a tree.
pub open spec fn ast_size(node: AstNode) -> nat
    decreases node,
{
    match node {
        AstNode::Alternation(b) => 1 + ast_size(*b.left) + ast_size(*b.right),
        AstNode::Concat(b) => 1 + ast_size(*b.left) + ast_size(*b.right),
        AstNode::Repetition(b) => 1 + ast_size(*b.child),
        _ => 1,
    }
}

/// The number of tree nodes still waiting in the queue from `from` on.
pub open spec fn pending_size(trees: Seq<AstNode>, from: int) -> nat
    decreases trees.len() - from,
    when from >= 0
{
    if from >= trees.len() {
        0
    } else {
        ast_size(trees[from]) + pending_size(trees, from + 1)
    }
}

proof fn lemma_pending_size_push(trees: Seq<AstNode>, from: int, x: AstNode)
    requires
        0 <= from <= trees.len(),
    ensures
        pending_size(trees.push(x), from) == pending_size(trees, from) + ast_size(x),
    decreases trees.len() - from,
{
    if from >= trees.len() {
        assert(pending_size(trees.push(x), from) == ast_size(trees.push(x)[from]) + pending_size(
            trees.push(x),
            from + 1,
        ));
        assert(trees.push(x)[from] == x);
    } else {
        assert(trees.push(x)[from] == trees[from]);
        lemma_pending_size_push(trees, from + 1, x);
    }
}

/// A layer that mirrors its tree keeps doing so when the queue grows.
proof fn lemma_layer_mirrors_stable(
    elems: Seq<AstNodeLayer<AstIdx>>,
    trees: Seq<AstNode>,
    bigger: Seq<AstNode>,
    k: int,
)
    requires
        layer_mirrors(elems, trees, k),
        trees.is_prefix_of(bigger),
        layer_children_ordered(elems[k], k, trees.len() as int),
    ensures
        layer_mirrors(elems, bigger, k),
{
    assert(bigger[k] == trees[k]);
    match elems[k] {
        AstNodeLayer::Alternation { left, right } => {
            assert(bigger[left.0 as int] == trees[left.0 as int]);
            assert(bigger[right.0 as int] == trees[right.0 as int]);
        },
        AstNodeLayer::Concat { left, right } => {
            assert(bigger[left.0 as int] == trees[left.0 as int]);
            assert(bigger[right.0 as int] == trees[right.0 as int]);
        },
        AstNodeLayer::Repetition { kind, child } => {
            assert(bigger[child.0 as int] == trees[child.0 as int]);
        },
        _ => {},
    }
}

/// When every layer mirrors its tree, the linearization denotes the trees.
proof fn lemma_mirrors_denote(elems: Seq<AstNodeLayer<AstIdx>>, trees: Seq<AstNode>, k: int)
    requires
        topo_wf(elems),
        elems.len() == trees.len(),
        forall|i: int| 0 <= i < elems.len() ==> layer_mirrors(elems, trees, i),
        0 <= k < elems.len(),
    ensures
        ast_like(denote(elems, k), trees[k]),
    decreases elems.len() - k,
{
    assert(layer_mirrors(elems, trees, k));
    assert(layer_children_ordered(elems[k], k, elems.len() as int));
    match elems[k] {
        AstNodeLayer::Alternation { left, right } => {
            lemma_mirrors_denote(elems, trees, left.0 as int);
            lemma_mirrors_denote(elems, trees, right.0 as int);
        },
        AstNodeLayer::Concat { left, right } => {
            lemma_mirrors_denote(elems, trees, left.0 as int);
            lemma_mirrors_denote(elems, trees, right.0 as int);
        },
        AstNodeLayer::Repetition { kind, child } => {
            lemma_mirrors_denote(elems, trees, child.0 as int);
        },
        _ => {},
    }
}

impl AstTopo {
    /// Linearizes a tree breadth first. Every layer's children sit strictly
    /// after it, and reading the vector back from position zero yields the
    /// input tree.
    pub fn from_boxed(root: &AstNode) -> (r: Self)
        ensures
            topo_wf(r.elems@),
            r.elems@.len() == ast_size(*root),
            r.elems@.len() >= 1,
            ast_like(denote(r.elems@, 0), *root),
    {
        let mut queue: Vec<&AstNode> = Vec::new();
        queue.push(root);
        let ghost gq = seq![*root];
        proof {
            assert(gq[0] == *root);
            assert(pending_size(gq, 1) == 0);
            assert(pending_size(gq, 0) == ast_size(*root) + pending_size(gq, 1));
        }
        let mut elems: Vec<AstNodeLayer<AstIdx>> = Vec::new();
        let mut head: usize = 0;
        while head < queue.len()
            invariant
                head == elems@.len(),
                head <= queue@.len(),
                queue@.len() >= 1,
                head + pending_size(gq, head as int) == ast_size(*root),
                gq.len() == queue@.len(),
                forall|k: int| 0 <= k < queue@.len() ==> gq[k] == *(#[trigger] queue@[k]),
                gq[0] == *root,
                forall|k: int|
                    0 <= k < elems@.len() ==> layer_children_ordered(
                        #[trigger] elems@[k],
                        k,
                        queue@.len() as int,
                    ),
                forall|k: int| 0 <= k < elems@.len() ==> layer_mirrors(elems@, gq, k),
            decreases pending_size(gq, head as int),
        {
            let ghost pre_elems = elems@;
            let ghost pre_gq = gq;
            let node = queue[head];
            proof {
                assert(pending_size(gq, head as int) == ast_size(gq[head as int]) + pending_size(
                    gq,
                    head as int + 1,
                ));
            }
            let layer = match node {
                AstNode::Alternation(b) => {
                    let left = AstIdx(queue.len());
                    queue.push(&b.left);
                    let right = AstIdx(queue.len());
                    queue.push(&b.right);
                    proof {
                        gq = gq.push(*b.left).push(*b.right);
                        lemma_pending_size_push(pre_gq, head as int + 1, *b.left);
                        lemma_pending_size_push(pre_gq.push(*b.left), head as int + 1, *b.right);
                    }
                    AstNodeLayer::Alternation { left, right }
                },
                AstNode::Concat(b) => {
                    let left = AstIdx(queue.len());
                    queue.push(&b.left);
                    let right = AstIdx(queue.len());
                    queue.push(&b.right);
                    proof {
                        gq = gq.push(*b.left).push(*b.right);
                        lemma_pending_size_push(pre_gq, head as int + 1, *b.left);
                        lemma_pending_size_push(pre_gq.push(*b.left), head as int + 1, *b.right);
                    }
                    AstNodeLayer::Concat { left, right }
                },
                AstNode::Repetition(b) => {
                    let child = AstIdx(queue.len());
                    queue.push(&b.child);
                    let kind = match b.kind {
                        RepetitionKind::ZeroOrOne => RepetitionKind::ZeroOrOne,
                        RepetitionKind::ZeroOrMore => RepetitionKind::ZeroOrMore,
                        RepetitionKind::OneOrMore => RepetitionKind::OneOrMore,
                    };
                    proof {
                        gq = gq.push(*b.child);
                        lemma_pending_size_push(pre_gq, head as int + 1, *b.child);
                    }
                    AstNodeLayer::Repetition { kind, child }
                },
                AstNode::Dot => AstNodeLayer::Dot,
                AstNode::CharacterClass(b) => AstNodeLayer::CharacterClass(
                    CharacterClass::new(
                        match b.kind {
                            crate::ast::CharacterClassKind::Digit => crate::ast::CharacterClassKind::Digit,
                            crate::ast::CharacterClassKind::Word => crate::ast::CharacterClassKind::Word,
                            crate::ast::CharacterClassKind::Whitespace => crate::ast::CharacterClassKind::Whitespace,
                        },
                        b.negated,
                    ),
                ),
                AstNode::ClassBracketed(b) => AstNodeLayer::ClassBracketed(copy_bracketed(b)),
                AstNode::Literal(b) => AstNodeLayer::Literal { value: b.value },
            };
            elems.push(layer);
            proof {
                assert(pre_gq.is_prefix_of(gq));
                assert forall|k: int|
                    0 <= k < elems@.len() implies layer_mirrors(elems@, gq, k) by {
                    if k < pre_elems.len() {
                        assert(elems@[k] == pre_elems[k]);
                        assert(layer_mirrors(pre_elems, pre_gq, k));
                        assert(layer_mirrors(elems@, pre_gq, k)) by {
                            assert(elems@.len() == pre_elems.len() + 1);
                        }
                        lemma_layer_mirrors_stable(elems@, pre_gq, gq, k);
                    } else {
                        assert(elems@[k] == layer);
                        assert(gq[k] == pre_gq[k]);
                        assert(gq[k] == *node);
                    }
                }
            }
            head = head + 1;
        }
        proof {
            assert(elems@.len() == queue@.len());
            assert(topo_wf(elems@));
            lemma_mirrors_denote(elems@, gq, 0);
        }
        AstTopo { elems }
    }
}

/// A fresh copy of a bracketed class, item by item.
fn copy_bracketed(cb: &ClassBracketed) -> (r: ClassBracketed)
    ensures
        r.negated == cb.negated,
        r.items@ == cb.items@,
{
    let mut r = ClassBracketed::new(cb.negated);
    let mut i: usize = 0;
    while i < cb.items.len()
        invariant
            i <= cb.items@.len(),
            r.negated == cb.negated,
            r.items@ == cb.items@.subrange(0, i as int),
        decreases cb.items@.len() - i,
    {
        let item = copy_item(&cb.items[i]);
        r.items.push(item);
        assert(r.items@ =~= cb.items@.subrange(0, i + 1 as int));
        i = i + 1;
    }
    assert(cb.items@.subrange(0, cb.items@.len() as int) =~= cb.items@);
    r
}

fn copy_item(item: &crate::ast::ClassSetItem) -> (r: crate::ast::ClassSetItem)
    ensures
        r == *item,
{
    match item {
        crate::ast::ClassSetItem::Literal(l) => crate::ast::ClassSetItem::Literal(
            Box::new(crate::ast::Literal { value: l.value }),
        ),
        crate::ast::ClassSetItem::Range(rg) => crate::ast::ClassSetItem::Range(
            Box::new(
                crate::ast::ClassSetRange {
                    start: crate::ast::Literal { value: rg.start.value },
                    end: crate::ast::Literal { value: rg.end.value },
                },
            ),
        ),
        crate::ast::ClassSetItem::CharacterClass(cc) => crate::ast::ClassSetItem::CharacterClass(
            Box::new(
                crate::ast::CharacterClass {
                    kind: match cc.kind {
                        crate::ast::CharacterClassKind::Digit => crate::ast::CharacterClassKind::Digit,
                        crate::ast::CharacterClassKind::Word => crate::ast::CharacterClassKind::Word,
                        crate::ast::CharacterClassKind::Whitespace => crate::ast::CharacterClassKind::Whitespace,
                    },
                    negated: cc.negated,
                },
            ),
        ),
    }
}

} // verus!
