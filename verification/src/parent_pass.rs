//! The pass that assigns the parents: from the root down, with the nodes
//! still to visit on a stack.
use crate::tree_model::{TreeNodeView, TreeView, holder, linked_down, parent_of, placed};
use vstd::prelude::*;

verus! {

/// The number of nodes that have no parent assigned.
pub open spec fn num_orphans(t: TreeView) -> nat
    decreases t.len(),
{
    if t.len() == 0 {
        0
    } else {
        num_orphans(t.drop_last()) + if t.last().parent is None {
            1nat
        } else {
            0nat
        }
    }
}

/// A node that gets its parent is one orphan fewer.
pub proof fn lemma_num_orphans_adopt(t: TreeView, i: int, n: TreeNodeView)
    requires
        0 <= i < t.len(),
        t[i].parent is None,
        n.parent is Some,
    ensures
        num_orphans(t.update(i, n)) + 1 == num_orphans(t),
    decreases t.len(),
{
    if i == t.len() - 1 {
        assert(t.update(i, n).drop_last() =~= t.drop_last());
    } else {
        lemma_num_orphans_adopt(t.drop_last(), i, n);
        assert(t.update(i, n).drop_last() =~= t.drop_last().update(i, n));
    }
}

/// Whether `child` waits on the stack of the parent pass.
pub open spec fn on_stack(stack: Seq<(usize, usize)>, child: int) -> bool {
    exists|e: int| 0 <= e < stack.len() && (#[trigger] stack[e]).0 == child
}

/// `t` differs from `t0` in parents only.
pub open spec fn pass_same(t0: TreeView, t: TreeView) -> bool {
    &&& t.len() == t0.len()
    &&& forall|i: int|
        0 <= i < t.len() ==> (#[trigger] t[i]) == (TreeNodeView { parent: t[i].parent, ..t0[i] })
}

/// Each parent that is assigned is the right one, and is itself assigned
/// unless it is the root.
pub open spec fn pass_assigned(t0: TreeView, t: TreeView) -> bool {
    forall|i: int|
        0 <= i < t.len() && t[i].parent is Some ==> {
            &&& i < t0.len() - 1
            &&& t[i].parent == Some(#[trigger] parent_of(t0, i))
            &&& parent_of(t0, i) == t0.len() - 1 || t[parent_of(t0, i)].parent is Some
        }
}

/// Each entry of the stack is a node without a parent yet, beside its
/// parent, which is assigned unless it is the root.
pub open spec fn pass_stack(t0: TreeView, t: TreeView, stack: Seq<(usize, usize)>) -> bool {
    forall|e: int|
        0 <= e < stack.len() ==> {
            &&& (#[trigger] stack[e]).0 < t0.len() - 1
            &&& stack[e].1 == parent_of(t0, stack[e].0 as int)
            &&& t[stack[e].0 as int].parent is None
            &&& stack[e].1 == t0.len() - 1 || t[stack[e].1 as int].parent is Some
        }
}

/// No node waits twice.
pub open spec fn pass_distinct(stack: Seq<(usize, usize)>) -> bool {
    forall|d: int, e: int|
        0 <= d < e < stack.len() ==> (#[trigger] stack[d]).0 != (#[trigger] stack[e]).0
}

/// Each node but the root has its parent, or waits, or its parent has none
/// yet.
pub open spec fn pass_covered(t0: TreeView, t: TreeView, stack: Seq<(usize, usize)>) -> bool {
    forall|i: int|
        0 <= i < t0.len() - 1 ==> {
            ||| t[i].parent is Some
            ||| on_stack(stack, i)
            ||| #[trigger] parent_of(t0, i) < t0.len() - 1 && t[parent_of(t0, i)].parent is None
        }
}

/// The state of the parent pass over the arena `t0`: `t` differs from it in
/// the parents assigned so far, each of them the right one; a node waits on
/// the stack once its parent is assigned, and is assigned once it leaves.
pub open spec fn parent_pass(t0: TreeView, t: TreeView, stack: Seq<(usize, usize)>) -> bool {
    &&& pass_same(t0, t)
    &&& pass_assigned(t0, t)
    &&& pass_stack(t0, t, stack)
    &&& pass_distinct(stack)
    &&& pass_covered(t0, t, stack)
}

/// When the stack is empty every node but the root has its parent.
pub proof fn lemma_parent_pass_done(t0: TreeView, t: TreeView, i: int)
    requires
        linked_down(t0),
        parent_pass(t0, t, Seq::empty()),
        0 <= i < t0.len() - 1,
    ensures
        t[i].parent is Some,
    decreases t0.len() - i,
{
    if t[i].parent is None {
        let h = parent_of(t0, i);
        assert(h == holder(t0, i / 2));
        assert(!on_stack(Seq::<(usize, usize)>::empty(), i));
        assert(placed(t0, i, (t0.len() - 1) / 2));
        assert(0 <= h < t0.len() && t0[h].tree_index == Some(i / 2));
        assert(placed(t0, h, (t0.len() - 1) / 2));
        lemma_parent_pass_done(t0, t, h);
    }
}

/// The stack after the node on top of it has left and, if that is an inner
/// node, its children have come.
pub open spec fn stack_after(t: TreeView, stack: Seq<(usize, usize)>) -> Seq<(usize, usize)> {
    let child = stack.last().0;
    let node = t[child as int];
    if node.left is Some && node.right is Some {
        stack.drop_last().push((node.left->0 as usize, child)).push(
            (node.right->0 as usize, child),
        )
    } else {
        stack.drop_last()
    }
}

/// The arena after the node on top of the stack got its parent.
pub open spec fn arena_after(t: TreeView, stack: Seq<(usize, usize)>) -> TreeView {
    let child = stack.last().0 as int;
    t.update(child, TreeNodeView { parent: Some(stack.last().1 as int), ..t[child] })
}

/// What the pass knows of the node `c` on top of the stack: if it is an
/// inner node, its children are the two nodes whose parent it is, and they
/// stand before it; a leaf is the parent of none.
pub open spec fn top_facts(t0: TreeView, t: TreeView, c: int) -> bool {
    let inner = t[c].left is Some && t[c].right is Some;
    let k = t0[c].tree_index->0;
    &&& 0 <= c < t0.len() - 1
    &&& t0.len() <= usize::MAX
    &&& inner ==> {
        &&& t[c].left == Some(2 * k)
        &&& t[c].right == Some(2 * k + 1)
        &&& 0 <= 2 * k
        &&& 2 * k + 1 < c
        &&& parent_of(t0, 2 * k) == c
        &&& parent_of(t0, 2 * k + 1) == c
    }
    &&& forall|i: int|
        0 <= i < t0.len() - 1 && #[trigger] parent_of(t0, i) == c ==> inner && (i == 2 * k || i
            == 2 * k + 1)
    &&& forall|i: int| 0 <= i < t0.len() - 1 ==> i < #[trigger] parent_of(t0, i) < t0.len()
}

/// The facts of the node on top of the stack hold in every state of the
/// pass.
proof fn lemma_top_facts(t0: TreeView, t: TreeView, stack: Seq<(usize, usize)>)
    requires
        linked_down(t0),
        t0.len() <= usize::MAX,
        pass_same(t0, t),
        pass_stack(t0, t, stack),
        stack.len() > 0,
    ensures
        top_facts(t0, t, stack.last().0 as int),
{
    let root = t0.len() - 1;
    let merges = (t0.len() - 1) / 2;
    let c = stack[stack.len() - 1].0 as int;
    assert(placed(t0, c, merges));
    assert(t[c] == TreeNodeView { parent: t[c].parent, ..t0[c] });
    let inner = t[c].left is Some && t[c].right is Some;
    if inner {
        let k = t0[c].tree_index->0;
        let h = holder(t0, k);
        assert(0 <= h < t0.len() && t0[h].tree_index == Some(k));
        if h < c {
            assert(t0[h].tree_index != t0[c].tree_index);
        } else if c < h {
            assert(t0[c].tree_index != t0[h].tree_index);
        }
        assert((2 * k) / 2 == k && (2 * k + 1) / 2 == k);
    }
    assert forall|i: int| 0 <= i < root && #[trigger] parent_of(t0, i) == c implies inner && (i
        == 2 * t0[c].tree_index->0 || i == 2 * t0[c].tree_index->0 + 1) by {
        let h = holder(t0, i / 2);
        assert(placed(t0, i, merges));
        assert(0 <= h < t0.len() && t0[h].tree_index == Some(i / 2));
    }
    assert forall|i: int| 0 <= i < root implies i < #[trigger] parent_of(t0, i) < t0.len() by {
        let h = holder(t0, i / 2);
        assert(placed(t0, i, merges));
        assert(0 <= h < t0.len() && t0[h].tree_index == Some(i / 2));
        if h < root {
            assert(placed(t0, h, merges));
        }
    }
}

/// A step assigns the right parent and nothing else.
proof fn lemma_step_arena(t0: TreeView, t: TreeView, stack: Seq<(usize, usize)>)
    requires
        parent_pass(t0, t, stack),
        stack.len() > 0,
        top_facts(t0, t, stack.last().0 as int),
    ensures
        pass_same(t0, arena_after(t, stack)),
        pass_assigned(t0, arena_after(t, stack)),
        num_orphans(arena_after(t, stack)) + 1 == num_orphans(t),
{
    let top = stack.len() - 1;
    let c = stack[top].0 as int;
    let t2 = arena_after(t, stack);
    lemma_num_orphans_adopt(t, c, t2[c]);
    assert forall|i: int| 0 <= i < t2.len() implies (#[trigger] t2[i]) == (TreeNodeView {
        parent: t2[i].parent,
        ..t0[i]
    }) by {
        assert(t[i] == TreeNodeView { parent: t[i].parent, ..t0[i] });
    }
    assert forall|i: int| 0 <= i < t2.len() && t2[i].parent is Some implies {
        &&& i < t0.len() - 1
        &&& t2[i].parent == Some(#[trigger] parent_of(t0, i))
        &&& parent_of(t0, i) == t0.len() - 1 || t2[parent_of(t0, i)].parent is Some
    } by {
        if i != c {
            assert(t[i].parent is Some);
        }
    }
}

/// After a step the stack holds what waited below the top, and the children
/// of the node that left.
proof fn lemma_step_stack(t0: TreeView, t: TreeView, stack: Seq<(usize, usize)>)
    requires
        parent_pass(t0, t, stack),
        stack.len() > 0,
        top_facts(t0, t, stack.last().0 as int),
    ensures
        pass_stack(t0, arena_after(t, stack), stack_after(t, stack)),
        pass_distinct(stack_after(t, stack)),
{
    let root = t0.len() - 1;
    let top = stack.len() - 1;
    let c = stack[top].0 as int;
    let t2 = arena_after(t, stack);
    let s2 = stack_after(t, stack);
    let rest = stack.drop_last();
    let inner = t[c].left is Some && t[c].right is Some;
    let k = t0[c].tree_index->0;
    assert forall|e: int| 0 <= e < rest.len() implies (#[trigger] s2[e]) == stack[e] by {}
    if inner {
        assert(s2[rest.len() as int] == ((2 * k) as usize, c as usize));
        assert(s2[rest.len() as int + 1] == ((2 * k + 1) as usize, c as usize));
    }
    // No child of the node at c waited already.
    assert forall|e: int| 0 <= e < rest.len() implies parent_of(
        t0,
        (#[trigger] stack[e]).0 as int,
    ) != c by {
        assert(stack[e].1 == root || t[stack[e].1 as int].parent is Some);
    }
    assert forall|e: int| 0 <= e < s2.len() implies {
        &&& (#[trigger] s2[e]).0 < t0.len() - 1
        &&& s2[e].1 == parent_of(t0, s2[e].0 as int)
        &&& t2[s2[e].0 as int].parent is None
        &&& s2[e].1 == t0.len() - 1 || t2[s2[e].1 as int].parent is Some
    } by {
        if e < rest.len() {
            assert(s2[e] == stack[e]);
            assert(stack[e].0 != stack[top].0);
        } else {
            let i = s2[e].0 as int;
            if t[i].parent is Some {
                assert(parent_of(t0, i) == root || t[parent_of(t0, i)].parent is Some);
            }
        }
    }
    assert forall|d: int, e: int| 0 <= d < e < s2.len() implies (#[trigger] s2[d]).0 != (
    #[trigger] s2[e]).0 by {
        if e < rest.len() {
            assert(s2[d] == stack[d] && s2[e] == stack[e]);
        } else if d < rest.len() {
            assert(s2[d] == stack[d]);
            assert(parent_of(t0, stack[d].0 as int) != c);
        }
    }
}

/// After a step every node is still assigned, waiting, or below a node
/// that is not assigned yet.
proof fn lemma_step_covered(t0: TreeView, t: TreeView, stack: Seq<(usize, usize)>)
    requires
        parent_pass(t0, t, stack),
        stack.len() > 0,
        top_facts(t0, t, stack.last().0 as int),
    ensures
        pass_covered(t0, arena_after(t, stack), stack_after(t, stack)),
{
    let top = stack.len() - 1;
    let c = stack[top].0 as int;
    let t2 = arena_after(t, stack);
    let s2 = stack_after(t, stack);
    let rest = stack.drop_last();
    let inner = t[c].left is Some && t[c].right is Some;
    let k = t0[c].tree_index->0;
    assert forall|e: int| 0 <= e < rest.len() implies (#[trigger] s2[e]) == stack[e] by {}
    if inner {
        assert(s2[rest.len() as int] == ((2 * k) as usize, c as usize));
        assert(s2[rest.len() as int + 1] == ((2 * k + 1) as usize, c as usize));
    }
    assert forall|i: int| 0 <= i < t0.len() - 1 implies {
        ||| t2[i].parent is Some
        ||| on_stack(s2, i)
        ||| #[trigger] parent_of(t0, i) < t0.len() - 1 && t2[parent_of(t0, i)].parent is None
    } by {
        if i != c {
            assert(t2[i] == t[i]);
            if t[i].parent is Some {
            } else if on_stack(stack, i) {
                let e = choose|e: int| 0 <= e < stack.len() && (#[trigger] stack[e]).0 == i;
                assert(e < rest.len());
                assert(s2[e].0 == i);
            } else if parent_of(t0, i) == c {
                if i == 2 * k {
                    assert(s2[rest.len() as int].0 == i);
                } else {
                    assert(s2[rest.len() as int + 1].0 == i);
                }
            } else {
                assert(t2[parent_of(t0, i)] == t[parent_of(t0, i)]);
            }
        }
    }
}

/// One step of the parent pass keeps its invariant and leaves one node
/// fewer without a parent.
pub proof fn lemma_parent_pass_step(t0: TreeView, t: TreeView, stack: Seq<(usize, usize)>)
    requires
        linked_down(t0),
        t0.len() <= usize::MAX,
        parent_pass(t0, t, stack),
        stack.len() > 0,
    ensures
        parent_pass(t0, arena_after(t, stack), stack_after(t, stack)),
        num_orphans(arena_after(t, stack)) + 1 == num_orphans(t),
        top_facts(t0, t, stack.last().0 as int),
{
    lemma_top_facts(t0, t, stack);
    lemma_step_arena(t0, t, stack);
    lemma_step_stack(t0, t, stack);
    lemma_step_covered(t0, t, stack);
}

} // verus!
