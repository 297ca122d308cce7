//! Inversion: a new tree in which every node has its children exchanged.

use vstd::prelude::*;
use crate::tree::{
    Action, Node, RefNode, clone_is_exact, copy_of, lemma_exact_copy, lemma_mirror_of_copy, mirror,
    node_count,
};

verus! {

/// The work that a control-stack entry of the inverting walk still stands for.
pub open spec fn invert_work<T>(a: Action<&RefNode<T>, &T>) -> nat {
    match a {
        Action::Call(t) => 3 * node_count(*t) + 1,
        Action::Handle(_) => 1,
    }
}

/// The work that a whole control stack of the inverting walk still stands for.
pub open spec fn invert_pending<T>(calls: Seq<Action<&RefNode<T>, &T>>) -> nat
    decreases calls.len(),
{
    if calls.len() == 0 {
        0
    } else {
        invert_pending(calls.drop_last()) + invert_work(calls.last())
    }
}

/// The result stack that is left once every entry of `calls` has been worked
/// off, the topmost (last) first, starting from the result stack `rets`.
///
/// An entry `Call(t)` leaves the mirror image of `t` on the result stack. An
/// entry `Handle(v)` takes the two topmost results and leaves one node: the
/// topmost becomes its left child, the one below its right child. A `Handle`
/// that finds fewer than two results cannot be worked off; the outcome is then
/// the empty sequence.
pub open spec fn invert_outcome<T>(
    calls: Seq<Action<&RefNode<T>, &T>>,
    rets: Seq<RefNode<T>>,
) -> Seq<RefNode<T>>
    decreases calls.len(),
{
    if calls.len() == 0 {
        rets
    } else {
        match calls.last() {
            Action::Call(t) => invert_outcome(calls.drop_last(), rets.push(mirror(*t))),
            Action::Handle(v) => if rets.len() >= 2 {
                invert_outcome(
                    calls.drop_last(),
                    rets.take(rets.len() - 2).push(
                        Some(
                            Box::new(
                                Node {
                                    v: *v,
                                    left: rets[rets.len() - 1],
                                    right: rets[rets.len() - 2],
                                },
                            ),
                        ),
                    ),
                )
            } else {
                Seq::empty()
            },
        }
    }
}

proof fn lemma_pending_push<T>(calls: Seq<Action<&RefNode<T>, &T>>, a: Action<&RefNode<T>, &T>)
    ensures
        invert_pending(calls.push(a)) == invert_pending(calls) + invert_work(a),
{
    assert(calls.push(a).drop_last() =~= calls);
}

/// Expanding a node into its deferred `Handle` and the two `Call`s of its
/// children changes neither the outcome nor, but for one unit, the work.
proof fn lemma_expand<T>(
    rest: Seq<Action<&RefNode<T>, &T>>,
    n: &Box<Node<T>>,
    rets: Seq<RefNode<T>>,
)
    ensures
        invert_outcome(
            rest.push(Action::Handle(&n.v)).push(Action::Call(&n.right)).push(
                Action::Call(&n.left),
            ),
            rets,
        ) == invert_outcome(rest, rets.push(mirror(Some(*n)))),
        invert_pending(
            rest.push(Action::Handle(&n.v)).push(Action::Call(&n.right)).push(
                Action::Call(&n.left),
            ),
        ) + 1 == invert_pending(rest) + 3 * node_count(Some(*n)) + 1,
{
    let s1 = rest.push(Action::Handle(&n.v));
    let s2 = s1.push(Action::Call(&n.right));
    let s3 = s2.push(Action::Call(&n.left));
    lemma_pending_push(rest, Action::Handle(&n.v));
    lemma_pending_push(s1, Action::Call(&n.right));
    lemma_pending_push(s2, Action::Call(&n.left));
    assert(s3.drop_last() =~= s2);
    assert(s2.drop_last() =~= s1);
    assert(s1.drop_last() =~= rest);
    let r1 = rets.push(mirror(n.left));
    let r2 = r1.push(mirror(n.right));
    assert(invert_outcome(s3, rets) == invert_outcome(s2, r1));
    assert(invert_outcome(s2, r1) == invert_outcome(s1, r2));
    assert(r2.take(r2.len() - 2) =~= rets);
    assert(invert_outcome(s1, r2) == invert_outcome(rest, rets.push(mirror(Some(*n)))));
}

/// Runs the inverting walk over `root` to its end and hands back both stacks
/// as the loop leaves them: the control stack is empty, and the result stack
/// holds exactly one entry, the inverted copy of `root`.
pub fn invert_walk<'a, T: Clone>(root: &'a RefNode<T>) -> (stacks: (
    Vec<Action<&'a RefNode<T>, &'a T>>,
    Vec<RefNode<T>>,
))
    ensures
        stacks.0@.len() == 0,
        stacks.1@.len() == 1,
        copy_of(mirror(*root), stacks.1@[0]),
{
    let mut ret_stack = Vec::<RefNode<T>>::new();
    let mut call_stack = Vec::<Action<&RefNode<T>, &T>>::new();
    let ghost mut exact: Seq<RefNode<T>> = Seq::empty();

    call_stack.push(Action::Call(root));
    proof {
        assert(call_stack@.drop_last() =~= Seq::empty());
        assert(invert_outcome(call_stack@.drop_last(), exact.push(mirror(*root)))
            == exact.push(mirror(*root)));
        assert(exact.push(mirror(*root)) =~= seq![mirror(*root)]);
    }

    while call_stack.len() > 0
        invariant
            invert_outcome(call_stack@, exact) == seq![mirror(*root)],
            exact.len() == ret_stack@.len(),
            forall|i: int| 0 <= i < exact.len() ==> copy_of(exact[i], #[trigger] ret_stack@[i]),
        decreases invert_pending(call_stack@),
    {
        let ghost before = call_stack@;
        let ghost rest = before.drop_last();
        let action = call_stack.pop().unwrap();
        assert(call_stack@ =~= rest);
        match action {
            Action::Call(t) => match t {
                Some(n) => {
                    call_stack.push(Action::Handle(&n.v));
                    call_stack.push(Action::Call(&n.right));
                    call_stack.push(Action::Call(&n.left));
                    proof {
                        lemma_expand(rest, n, exact);
                    }
                },
                None => {
                    ret_stack.push(None);
                    proof {
                        exact = exact.push(None);
                    }
                },
            },
            Action::Handle(v) => {
                assert(exact.len() >= 2) by {
                    assert(before.last() == action);
                    assert(seq![mirror(*root)].len() == 1);
                }
                let l = ret_stack.pop().unwrap();
                let r = ret_stack.pop().unwrap();
                ret_stack.push(Some(Box::new(Node { v: v.clone(), left: l, right: r })));
                proof {
                    let k = exact.len();
                    exact = exact.take(k - 2).push(
                        Some(Box::new(Node { v: *v, left: exact[k - 1], right: exact[k - 2] })),
                    );
                }
            },
        }
    }
    (call_stack, ret_stack)
}

/// Inverts a tree by plain recursion, which is the baseline for the walk.
/// The tree is taken apart and its values move into the result.
pub fn invert_tree<T>(root: RefNode<T>) -> (inverted: RefNode<T>)
    ensures
        inverted == mirror(root),
    decreases root,
{
    match root {
        Some(node) => {
            let Node { v, left, right } = *node;
            Some(Box::new(Node { v, left: invert_tree(right), right: invert_tree(left) }))
        },
        None => None,
    }
}

/// Inverts a tree without recursion, on an explicit control stack and result
/// stack. The tree behind `root` is only read: the result is built from clones
/// of its values.
pub fn invert_tree_stack<T: Clone>(root: &RefNode<T>) -> (inverted: RefNode<T>)
    ensures
        copy_of(mirror(*root), inverted),
        clone_is_exact::<T>() ==> inverted == mirror(*root),
{
    let (_, mut ret_stack) = invert_walk(root);
    let inverted = ret_stack.pop().unwrap();
    proof {
        if clone_is_exact::<T>() {
            lemma_exact_copy(mirror(*root), inverted);
        }
    }
    inverted
}

/// Inverting a tree twice gives the tree back.
pub proof fn lemma_mirror_involution<T>(t: RefNode<T>)
    ensures
        mirror(mirror(t)) == t,
    decreases t,
{
    match t {
        Some(n) => {
            lemma_mirror_involution(n.left);
            lemma_mirror_involution(n.right);
        },
        None => {},
    }
}

/// What the walk returns for a tree is a copy of what the recursion returns
/// for it: the same shape, and at each place a clone of the same value. Where
/// cloning is exact the two results are equal.
pub proof fn lemma_walk_matches_recursion<T: Clone>(
    t: RefNode<T>,
    walked: RefNode<T>,
    recursed: RefNode<T>,
)
    requires
        copy_of(mirror(t), walked),
        recursed == mirror(t),
    ensures
        copy_of(recursed, walked),
        clone_is_exact::<T>() ==> walked == recursed,
{
    if clone_is_exact::<T>() {
        lemma_exact_copy(mirror(t), walked);
    }
}

/// Walking a tree and then walking the result leads back to the tree: the
/// mirror image of the first result is a copy of the tree, and the second
/// result is a copy of that mirror image. Where cloning is exact the second
/// result is the tree itself.
pub proof fn lemma_walk_twice<T: Clone>(t: RefNode<T>, once: RefNode<T>, twice: RefNode<T>)
    requires
        copy_of(mirror(t), once),
        copy_of(mirror(once), twice),
    ensures
        copy_of(t, mirror(once)) && copy_of(mirror(once), twice),
        clone_is_exact::<T>() ==> twice == t,
{
    lemma_mirror_of_copy(mirror(t), once);
    lemma_mirror_involution(t);
    if clone_is_exact::<T>() {
        lemma_exact_copy(mirror(t), once);
        lemma_exact_copy(mirror(once), twice);
    }
}

} // verus!
