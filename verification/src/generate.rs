//! Generation of perfect trees whose nodes are numbered in the order in which
//! the builder reaches them: a node first, then its left subtree, then its
//! right subtree.

use vstd::prelude::*;
use crate::tree::{Action, Node, RefNode};

verus! {

/// The number of nodes of a perfect tree with `depth` levels.
pub open spec fn full_count(depth: nat) -> nat
    decreases depth,
{
    if depth == 0 {
        0
    } else {
        2 * full_count((depth - 1) as nat) + 1
    }
}

/// A perfect tree with more levels has no fewer nodes.
proof fn lemma_full_count_grows(less: nat, more: nat)
    requires
        less <= more,
    ensures
        full_count(less) <= full_count(more),
    decreases more,
{
    if less < more {
        lemma_full_count_grows(less, (more - 1) as nat);
    }
}

/// The number of nodes of a perfect tree with `depth` levels, or `None` where
/// it does not fit `usize`.
pub fn checked_full_count(depth: usize) -> (count: Option<usize>)
    ensures
        match count {
            Some(n) => n == full_count(depth as nat),
            None => full_count(depth as nat) > usize::MAX,
        },
{
    let mut nodes: usize = 0;
    let mut done: usize = 0;
    while done < depth
        invariant
            done <= depth,
            nodes == full_count(done as nat),
        decreases depth - done,
    {
        if nodes > (usize::MAX - 1) / 2 {
            proof {
                lemma_full_count_grows((done + 1) as nat, depth as nat);
            }
            return None;
        }
        nodes = 2 * nodes + 1;
        done += 1;
    }
    Some(nodes)
}

/// The perfect tree with `depth` levels whose root is numbered `first`, whose
/// left subtree takes the numbers that follow, and whose right subtree takes
/// those that follow the left subtree's.
pub open spec fn full_tree(depth: nat, first: int) -> RefNode<usize>
    decreases depth,
{
    if depth == 0 {
        None
    } else {
        Some(
            Box::new(
                Node {
                    v: first as usize,
                    left: full_tree((depth - 1) as nat, first + 1),
                    right: full_tree(
                        (depth - 1) as nat,
                        first + 1 + full_count((depth - 1) as nat),
                    ),
                },
            ),
        )
    }
}

/// Every node of `t` has two children down to level `depth`, where it has
/// none; with no level at all the tree is empty.
pub open spec fn is_perfect<T>(t: RefNode<T>, depth: nat) -> bool
    decreases depth,
{
    match t {
        Some(n) => depth > 0 && is_perfect(n.left, (depth - 1) as nat) && is_perfect(
            n.right,
            (depth - 1) as nat,
        ),
        None => depth == 0,
    }
}

/// The levels that a request to build a non-empty subtree stands for: a
/// request for no level still builds its node.
pub open spec fn levels(d: usize) -> nat {
    if d == 0 {
        1
    } else {
        d as nat
    }
}

/// The number of nodes that a control-stack entry of the building walk will
/// still number.
pub open spec fn build_nodes(a: Action<(RefNode<usize>, usize), usize>) -> nat {
    match a {
        Action::Call((Some(_), d)) => full_count(levels(d)),
        _ => 0,
    }
}

/// The number of nodes that a whole control stack will still number.
pub open spec fn build_todo(calls: Seq<Action<(RefNode<usize>, usize), usize>>) -> nat
    decreases calls.len(),
{
    if calls.len() == 0 {
        0
    } else {
        build_todo(calls.drop_last()) + build_nodes(calls.last())
    }
}

/// The result stack that is left once every entry of `calls` has been worked
/// off, the topmost (last) first, starting from the result stack `rets` with
/// `counter` numbers already given out.
///
/// An entry `Call((None, _))` leaves an empty tree. An entry
/// `Call((Some(_), d))` leaves the perfect tree of `levels(d)` levels numbered
/// from `counter + 1`, and uses up as many numbers as it has nodes. An entry
/// `Handle(c)` takes the two topmost results and leaves one node with the
/// value `c`: the topmost becomes its right child, the one below its left
/// child. A `Handle` that finds fewer than two results cannot be worked off;
/// the outcome is then the empty sequence.
pub open spec fn build_outcome(
    calls: Seq<Action<(RefNode<usize>, usize), usize>>,
    rets: Seq<RefNode<usize>>,
    counter: int,
) -> Seq<RefNode<usize>>
    decreases calls.len(),
{
    if calls.len() == 0 {
        rets
    } else {
        match calls.last() {
            Action::Call((Some(_), d)) => build_outcome(
                calls.drop_last(),
                rets.push(full_tree(levels(d), counter + 1)),
                counter + full_count(levels(d)),
            ),
            Action::Call((None, _)) => build_outcome(calls.drop_last(), rets.push(None), counter),
            Action::Handle(c) => if rets.len() >= 2 {
                build_outcome(
                    calls.drop_last(),
                    rets.take(rets.len() - 2).push(
                        Some(
                            Box::new(
                                Node {
                                    v: c,
                                    left: rets[rets.len() - 2],
                                    right: rets[rets.len() - 1],
                                },
                            ),
                        ),
                    ),
                    counter,
                )
            } else {
                Seq::empty()
            },
        }
    }
}

proof fn lemma_todo_push(
    calls: Seq<Action<(RefNode<usize>, usize), usize>>,
    a: Action<(RefNode<usize>, usize), usize>,
)
    ensures
        build_todo(calls.push(a)) == build_todo(calls) + build_nodes(a),
{
    assert(calls.push(a).drop_last() =~= calls);
}

/// Whether `a` is what a node with `d` levels to build puts on the control
/// stack for one of its children: a subtree of one level less where that
/// leaves any, and else the empty tree.
spec fn asks_for_child(a: Action<(RefNode<usize>, usize), usize>, d: usize) -> bool {
    match a {
        Action::Call((slot, below)) => if d > 1 {
            slot is Some && below == d - 1
        } else {
            slot is None
        },
        Action::Handle(_) => false,
    }
}

/// Replacing a request for a subtree by the `Handle` of its root and the
/// requests for its two children changes neither the outcome nor the number
/// of nodes still to come, the root apart.
proof fn lemma_expand(
    rest: Seq<Action<(RefNode<usize>, usize), usize>>,
    d: usize,
    l: Action<(RefNode<usize>, usize), usize>,
    r: Action<(RefNode<usize>, usize), usize>,
    rets: Seq<RefNode<usize>>,
    counter: int,
)
    requires
        asks_for_child(l, d),
        asks_for_child(r, d),
    ensures
        build_outcome(
            rest.push(Action::Handle((counter + 1) as usize)).push(r).push(l),
            rets,
            counter + 1,
        ) == build_outcome(
            rest,
            rets.push(full_tree(levels(d), counter + 1)),
            counter + full_count(levels(d)),
        ),
        build_todo(rest.push(Action::Handle((counter + 1) as usize)).push(r).push(l)) + 1
            == build_todo(rest) + full_count(levels(d)),
{
    let h = Action::<(RefNode<usize>, usize), usize>::Handle((counter + 1) as usize);
    let s1 = rest.push(h);
    let s2 = s1.push(r);
    let s3 = s2.push(l);
    lemma_todo_push(rest, h);
    lemma_todo_push(s1, r);
    lemma_todo_push(s2, l);
    assert(s3.drop_last() =~= s2);
    assert(s2.drop_last() =~= s1);
    assert(s1.drop_last() =~= rest);
    let below = (levels(d) - 1) as nat;
    assert(full_count(levels(d)) == 2 * full_count(below) + 1);
    assert(full_count(0) == 0);
    assert(full_tree(0, counter + 2) is None);
    let lt = full_tree(below, counter + 2);
    let rt = full_tree(below, counter + 2 + full_count(below));
    let r1 = rets.push(lt);
    let r2 = r1.push(rt);
    let c1 = counter + 1 + full_count(below);
    let c2 = c1 + full_count(below);
    assert(build_outcome(s3, rets, counter + 1) == build_outcome(s2, r1, c1));
    assert(build_outcome(s2, r1, c1) == build_outcome(s1, r2, c2));
    assert(r2.take(r2.len() - 2) =~= rets);
    assert(build_outcome(s1, r2, c2) == build_outcome(
        rest,
        rets.push(full_tree(levels(d), counter + 1)),
        c2,
    ));
}

/// Builds a perfect tree of `depth` levels by plain recursion, numbering its
/// nodes from `*counter + 1` on and leaving the last number given out in
/// `*counter`. The numbers have to fit the counter's type.
pub fn generate_tree(depth: usize, counter: &mut usize) -> (tree: RefNode<usize>)
    requires
        *old(counter) + full_count(depth as nat) <= usize::MAX,
    ensures
        tree == full_tree(depth as nat, *old(counter) + 1),
        is_perfect(tree, depth as nat),
        *final(counter) == *old(counter) + full_count(depth as nat),
    decreases depth,
{
    proof {
        lemma_full_tree_is_perfect(depth as nat, *old(counter) + 1);
    }
    if depth == 0 {
        return None;
    }
    *counter += 1;
    let mut node = Node::new(*counter);

    node.left = generate_tree(depth - 1, counter);

    node.right = generate_tree(depth - 1, counter);

    Some(Box::new(node))
}

/// Runs the building walk for `depth` levels to its end and hands back both
/// stacks as the loop leaves them: the control stack is empty, and the result
/// stack holds exactly one entry, the tree.
pub fn generate_walk(depth: usize) -> (stacks: (
    Vec<Action<(RefNode<usize>, usize), usize>>,
    Vec<RefNode<usize>>,
))
    requires
        full_count(depth as nat) <= usize::MAX,
    ensures
        stacks.0@.len() == 0,
        stacks.1@ == seq![full_tree(depth as nat, 1)],
{
    let mut call_st = Vec::<Action<(RefNode<usize>, usize), usize>>::new();
    let mut ret_st = Vec::<RefNode<usize>>::new();

    if depth == 0 {
        call_st.push(Action::Call((None, 0)));
    } else {
        call_st.push(Action::Call((Node::ref_node(0, None, None), depth)));
    }
    proof {
        assert(call_st@.drop_last() =~= Seq::empty());
        assert(build_todo(call_st@.drop_last()) == 0);
        assert(ret_st@.push(full_tree(depth as nat, 1)) =~= seq![full_tree(depth as nat, 1)]);
        assert(full_tree(0, 1) is None);
        assert(build_outcome(call_st@.drop_last(), seq![full_tree(depth as nat, 1)],
            full_count(depth as nat) as int) == seq![full_tree(depth as nat, 1)]);
    }

    let mut counter: usize = 0;

    while call_st.len() > 0
        invariant
            build_outcome(call_st@, ret_st@, counter as int) == seq![full_tree(depth as nat, 1)],
            counter + build_todo(call_st@) <= usize::MAX,
        decreases 3 * build_todo(call_st@) + call_st@.len(),
    {
        let ghost before = call_st@;
        let ghost rest = before.drop_last();
        let ghost rets = ret_st@;
        let action = call_st.pop().unwrap();
        assert(call_st@ =~= rest);
        assert(before.last() == action);
        match action {
            Action::Call((slot, d)) => match slot {
                Some(_) => {
                    assert(full_count(levels(d)) >= 1);
                    counter += 1;
                    call_st.push(Action::Handle(counter));

                    if d > 1 {
                        let l = Node::ref_node(0, None, None);
                        let r = Node::ref_node(0, None, None);

                        call_st.push(Action::Call((r, d - 1)));
                        call_st.push(Action::Call((l, d - 1)));
                    } else {
                        call_st.push(Action::Call((None, 0)));
                        call_st.push(Action::Call((None, 0)));
                    }
                    proof {
                        let n = call_st@.len();
                        lemma_expand(rest, d, call_st@[n - 1], call_st@[n - 2], rets, counter - 1);
                        assert(call_st@ =~= rest.push(Action::Handle(counter)).push(
                            call_st@[n - 2],
                        ).push(call_st@[n - 1]));
                    }
                },
                None => {
                    ret_st.push(None);
                },
            },
            Action::Handle(c) => {
                assert(ret_st@.len() >= 2) by {
                    assert(seq![full_tree(depth as nat, 1)].len() == 1);
                }
                let r = ret_st.pop().unwrap();
                let l = ret_st.pop().unwrap();

                let ref_node = Node::ref_node(c, l, r);

                ret_st.push(ref_node);
                assert(ret_st@ =~= rets.take(rets.len() - 2).push(ref_node));
            },
        }
    }
    (call_st, ret_st)
}

/// Builds a perfect tree of `depth` levels without recursion, on an explicit
/// control stack and result stack, numbering its nodes from 1 on. No level
/// gives the empty tree. The numbers have to fit `usize`.
pub fn generate_tree_st(depth: usize) -> (tree: RefNode<usize>)
    requires
        full_count(depth as nat) <= usize::MAX,
    ensures
        tree == full_tree(depth as nat, 1),
        is_perfect(tree, depth as nat),
{
    let (_, mut ret_st) = generate_walk(depth);
    proof {
        lemma_full_tree_is_perfect(depth as nat, 1);
    }
    ret_st.pop().unwrap()
}

/// A generated tree is perfect: with no level it is empty, and otherwise every
/// node above the last level has two children and every node of the last
/// level has none.
pub proof fn lemma_full_tree_is_perfect(depth: nat, first: int)
    ensures
        is_perfect(full_tree(depth, first), depth),
        depth == 0 ==> full_tree(depth, first) is None,
    decreases depth,
{
    if depth > 0 {
        lemma_full_tree_is_perfect((depth - 1) as nat, first + 1);
        lemma_full_tree_is_perfect(
            (depth - 1) as nat,
            first + 1 + full_count((depth - 1) as nat),
        );
    }
}

} // verus!
