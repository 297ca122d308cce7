//! Traversals that list the values of a tree: the lines of its sideways
//! picture, right subtree on top, and the order in which a visit that starts
//! at the root reaches the nodes.

use vstd::prelude::*;
use crate::tree::{Action, Node, RefNode, height, mirror, node_count};

verus! {

/// The lines of the picture of `t`, from top to bottom, each a value with its
/// indentation level: first the right subtree one level deeper, then the root
/// at `level`, then the left subtree one level deeper.
pub open spec fn lines<T>(t: &RefNode<T>, level: usize) -> Seq<(&T, usize)>
    decreases t,
{
    match t {
        Some(n) => lines(&n.right, (level + 1) as usize) + seq![(&n.v, level)] + lines(
            &n.left,
            (level + 1) as usize,
        ),
        None => Seq::empty(),
    }
}

/// The values of `t` in the order root, left subtree, right subtree.
pub open spec fn preorder<T>(t: &RefNode<T>) -> Seq<&T>
    decreases t,
{
    match t {
        Some(n) => seq![&n.v] + preorder(&n.left) + preorder(&n.right),
        None => Seq::empty(),
    }
}

/// The lines that a control-stack entry of the listing walk stands for.
pub open spec fn entry_lines<'a, T>(a: Action<(&'a RefNode<T>, usize), (&'a T, usize)>) -> Seq<
    (&'a T, usize),
> {
    match a {
        Action::Call((t, level)) => lines(t, level),
        Action::Handle(line) => seq![line],
    }
}

/// The lines that a whole control stack stands for, the topmost (last)
/// entry's first.
pub open spec fn pending_lines<'a, T>(
    calls: Seq<Action<(&'a RefNode<T>, usize), (&'a T, usize)>>,
) -> Seq<(&'a T, usize)>
    decreases calls.len(),
{
    if calls.len() == 0 {
        Seq::empty()
    } else {
        entry_lines(calls.last()) + pending_lines(calls.drop_last())
    }
}

/// The work that a control-stack entry of the listing walk still stands for.
pub open spec fn entry_work<T>(a: Action<(&RefNode<T>, usize), (&T, usize)>) -> nat {
    match a {
        Action::Call((t, _)) => 3 * node_count(*t) + 1,
        Action::Handle(_) => 1,
    }
}

/// The work that a whole control stack of the listing walk still stands for.
pub open spec fn pending_work<T>(calls: Seq<Action<(&RefNode<T>, usize), (&T, usize)>>) -> nat
    decreases calls.len(),
{
    if calls.len() == 0 {
        0
    } else {
        pending_work(calls.drop_last()) + entry_work(calls.last())
    }
}

/// An entry that asks for a subtree leaves room for the levels of all its
/// nodes and of the empty places below them.
pub open spec fn entry_fits<T>(a: Action<(&RefNode<T>, usize), (&T, usize)>) -> bool {
    match a {
        Action::Call((t, level)) => level + height(*t) <= usize::MAX,
        Action::Handle(_) => true,
    }
}

/// The indentation of a line at `level`: two spaces for each level.
pub open spec fn indent(level: nat) -> Seq<char> {
    Seq::new(2 * level, |i: int| ' ')
}

/// `String::push_str` of the standard library, which appends the characters
/// of `text` to those of `line` and changes nothing else.
#[verifier::external_body]
fn push_text(line: &mut String, text: &str)
    ensures
        final(line)@ == old(line)@ + text@,
{
    line.push_str(text)
}

/// One line of the picture: the indentation of `level`, then `text`.
pub fn picture_line(text: &str, level: usize) -> (line: String)
    ensures
        line@ == indent(level as nat) + text@,
{
    let mut line = String::new();
    let mut done: usize = 0;
    proof {
        reveal_strlit("  ");
        assert(line@ =~= indent(0));
    }
    while done < level
        invariant
            done <= level,
            line@ == indent(done as nat),
            "  "@ == seq![' ', ' '],
        decreases level - done,
    {
        push_text(&mut line, "  ");
        done += 1;
        assert(line@ =~= indent(done as nat));
    }
    push_text(&mut line, text);
    line
}

proof fn lemma_push<T>(
    calls: Seq<Action<(&RefNode<T>, usize), (&T, usize)>>,
    a: Action<(&RefNode<T>, usize), (&T, usize)>,
)
    ensures
        pending_lines(calls.push(a)) == entry_lines(a) + pending_lines(calls),
        pending_work(calls.push(a)) == pending_work(calls) + entry_work(a),
{
    assert(calls.push(a).drop_last() =~= calls);
}

impl<T> Node<T> {
    /// The lines of the picture of this node's tree, by plain recursion, with
    /// the node itself at `level`. The deepest level has to fit `usize`.
    pub fn tree_lines(&self, level: usize) -> (out: Vec<(&T, usize)>)
        requires
            level + height(Some(Box::new(*self))) <= usize::MAX + 1,
        ensures
            out@ == lines(&Some(Box::new(*self)), level),
        decreases self,
    {
        let mut out: Vec<(&T, usize)> = Vec::new();
        if let Some(right) = &self.right {
            assert(height(self.right) >= 1);
            let mut above = right.tree_lines(level + 1);
            out.append(&mut above);
        }
        out.push((&self.v, level));
        if let Some(left) = &self.left {
            assert(height(self.left) >= 1);
            let mut below = left.tree_lines(level + 1);
            out.append(&mut below);
        }
        proof {
            let next = #[verifier::truncate] ((level + 1) as usize);
            assert(out@ =~= lines(&self.right, next) + seq![(&self.v, level)] + lines(
                &self.left,
                next,
            ));
        }
        out
    }

    /// The values of this node's tree in the order of a visit that takes a
    /// node first, then its left subtree, then its right subtree.
    pub fn visit_order(&self) -> (out: Vec<&T>)
        ensures
            out@ == preorder(&Some(Box::new(*self))),
        decreases self,
    {
        let mut out: Vec<&T> = Vec::new();
        out.push(&self.v);
        if let Some(n) = &self.left {
            let mut first = n.visit_order();
            out.append(&mut first);
        }
        if let Some(n) = &self.right {
            let mut second = n.visit_order();
            out.append(&mut second);
        }
        proof {
            assert(out@ =~= seq![&self.v] + preorder(&self.left) + preorder(&self.right));
        }
        out
    }
}

/// The lines of the picture of a tree without recursion, on an explicit
/// control stack, with the root at level 0. The level below the deepest node
/// has to fit `usize`.
pub fn tree_lines_st<'a, T>(root: &'a RefNode<T>) -> (out: Vec<(&'a T, usize)>)
    requires
        height(*root) <= usize::MAX,
    ensures
        out@ == lines(root, 0),
{
    let mut stack = Vec::<Action<(&RefNode<T>, usize), (&T, usize)>>::new();
    let mut out: Vec<(&T, usize)> = Vec::new();

    stack.push(Action::Call((root, 0)));
    proof {
        let start = Action::<(&RefNode<T>, usize), (&T, usize)>::Call((root, 0usize));
        lemma_push(Seq::empty(), start);
        assert(stack@ =~= Seq::empty().push(start));
        assert(out@ + pending_lines(stack@) =~= lines(root, 0));
    }

    while stack.len() > 0
        invariant
            out@ + pending_lines(stack@) == lines(root, 0),
            forall|i: int| 0 <= i < stack@.len() ==> entry_fits(#[trigger] stack@[i]),
        decreases pending_work(stack@),
    {
        let ghost before = stack@;
        let ghost rest = before.drop_last();
        let ghost done = out@;
        let action = stack.pop().unwrap();
        assert(stack@ =~= rest);
        assert(before.last() == action);
        assert(entry_fits(before[before.len() - 1]));
        match action {
            Action::Call((t, level)) => match t {
                Some(n) => {
                    stack.push(Action::Call((&n.left, level + 1)));
                    stack.push(Action::Handle((&n.v, level)));
                    stack.push(Action::Call((&n.right, level + 1)));
                    proof {
                        let c1 = Action::<(&RefNode<T>, usize), (&T, usize)>::Call(
                            (&n.left, (level + 1) as usize),
                        );
                        let h = Action::<(&RefNode<T>, usize), (&T, usize)>::Handle(
                            (&n.v, level),
                        );
                        let c2 = Action::<(&RefNode<T>, usize), (&T, usize)>::Call(
                            (&n.right, (level + 1) as usize),
                        );
                        lemma_push(rest, c1);
                        lemma_push(rest.push(c1), h);
                        lemma_push(rest.push(c1).push(h), c2);
                        assert(pending_lines(stack@) =~= lines(t, level) + pending_lines(rest));
                        assert(done + (lines(t, level) + pending_lines(rest)) =~= done
                            + pending_lines(before));
                    }
                },
                None => {
                    assert(done + pending_lines(rest) =~= done + pending_lines(before));
                },
            },
            Action::Handle(line) => {
                out.push(line);
                assert(out@ + pending_lines(rest) =~= done + pending_lines(before));
            },
        }
    }
    proof {
        assert(out@ + pending_lines(stack@) =~= out@);
    }
    out
}

/// The picture of the inverted tree is the picture of the tree turned upside
/// down: the same lines, each with the level it had, in the opposite order.
pub proof fn lemma_lines_of_mirror<T>(t: RefNode<T>, level: usize)
    ensures
        lines(&mirror(t), level) == lines(&t, level).reverse(),
        lines(&mirror(t), level).len() == lines(&t, level).len(),
    decreases t,
{
    match t {
        Some(n) => {
            let next = (level + 1) as usize;
            lemma_lines_of_mirror(n.left, next);
            lemma_lines_of_mirror(n.right, next);
            let a = lines(&n.right, next);
            let b = seq![(&n.v, level)];
            let c = lines(&n.left, next);
            assert((a + b + c).reverse() =~= c.reverse() + b + a.reverse());
        },
        None => {
            assert(lines(&t, level).reverse() =~= Seq::<(&T, usize)>::empty());
        },
    }
}

} // verus!
