//! The tree itself, the work items of the explicit stacks, and the
//! mathematical functions that the contracts of the crate speak of.

use vstd::prelude::*;

verus! {

/// An owned, possibly empty subtree.
pub type RefNode<T> = Option<Box<Node<T>>>;

/// A value with two owned, possibly empty subtrees.
#[derive(Default, Debug, PartialEq, Eq)]
pub struct Node<T> {
    pub v: T,
    pub left: RefNode<T>,
    pub right: RefNode<T>,
}

/// An entry of a control stack: either a subtree that still has to be
/// expanded, or the deferred work of a node whose children come first.
#[derive(Debug)]
pub enum Action<T, U> {
    Call(T),
    Handle(U),
}

impl<T> Node<T> {
    /// A node without children.
    pub fn new(v: T) -> (node: Self)
        ensures
            node == (Node { v, left: None, right: None }),
    {
        Self { v, left: None, right: None }
    }

    /// A non-empty subtree made of a value and its two children.
    pub fn ref_node(v: T, left: RefNode<T>, right: RefNode<T>) -> (tree: RefNode<T>)
        ensures
            tree == Some(Box::new(Node { v, left, right })),
    {
        Some(Box::new(Self { v, left, right }))
    }
}

impl<T: Clone> Clone for Node<T> {
    /// A deep copy: the same shape, each value cloned.
    fn clone(&self) -> (res: Self)
        ensures
            copy_of(Some(Box::new(*self)), Some(Box::new(res))),
        decreases self,
    {
        let left: RefNode<T> = match &self.left {
            Some(n) => Some(Box::new((&**n).clone())),
            None => None,
        };
        let right: RefNode<T> = match &self.right {
            Some(n) => Some(Box::new((&**n).clone())),
            None => None,
        };
        assert(copy_of(self.left, left));
        assert(copy_of(self.right, right));
        Node { v: self.v.clone(), left, right }
    }
}

/// The tree with the two children of every node exchanged.
pub open spec fn mirror<T>(t: RefNode<T>) -> RefNode<T>
    decreases t,
{
    match t {
        Some(n) => Some(Box::new(Node { v: n.v, left: mirror(n.right), right: mirror(n.left) })),
        None => None,
    }
}

/// The number of nodes of a tree.
pub open spec fn node_count<T>(t: RefNode<T>) -> nat
    decreases t,
{
    match t {
        Some(n) => 1 + node_count(n.left) + node_count(n.right),
        None => 0,
    }
}

/// The number of nodes on the longest path from the root downwards.
pub open spec fn height<T>(t: RefNode<T>) -> nat
    decreases t,
{
    match t {
        Some(n) => {
            let l = height(n.left);
            let r = height(n.right);
            1 + if l >= r { l } else { r }
        },
        None => 0,
    }
}

/// The height of a tree, or `None` where it does not fit `usize`.
pub fn checked_height<T>(root: &RefNode<T>) -> (h: Option<usize>)
    ensures
        match h {
            Some(n) => n == height(*root),
            None => height(*root) > usize::MAX,
        },
    decreases root,
{
    match root {
        Some(n) => {
            let left = checked_height(&n.left);
            let right = checked_height(&n.right);
            match (left, right) {
                (Some(l), Some(r)) => {
                    let below: usize = if l >= r {
                        l
                    } else {
                        r
                    };
                    if below < usize::MAX {
                        Some(below + 1)
                    } else {
                        None
                    }
                },
                _ => None,
            }
        },
        None => Some(0),
    }
}

/// `b` has the shape of `a`, and the value of each of its nodes is what
/// `Clone::clone` may return for the value at the same place in `a`.
pub open spec fn copy_of<T: Clone>(a: RefNode<T>, b: RefNode<T>) -> bool
    decreases a,
{
    match a {
        Some(x) => match b {
            Some(y) => cloned::<T>(x.v, y.v) && copy_of(x.left, y.left) && copy_of(
                x.right,
                y.right,
            ),
            None => false,
        },
        None => b is None,
    }
}

/// Whether `Clone::clone` on `T` can only return a value equal to its
/// argument, as it does on the integer types.
pub open spec fn clone_is_exact<T: Clone>() -> bool {
    forall|a: T, b: T| #[trigger] cloned::<T>(a, b) ==> a == b
}

/// Where cloning is exact, a copy of a tree is that tree.
pub proof fn lemma_exact_copy<T: Clone>(a: RefNode<T>, b: RefNode<T>)
    requires
        clone_is_exact::<T>(),
        copy_of(a, b),
    ensures
        a == b,
    decreases a,
{
    match a {
        Some(x) => {
            let y = b->0;
            lemma_exact_copy(x.left, y.left);
            lemma_exact_copy(x.right, y.right);
        },
        None => {},
    }
}

/// The mirror images of a tree and of a copy of it are copies of each other.
pub proof fn lemma_mirror_of_copy<T: Clone>(a: RefNode<T>, b: RefNode<T>)
    requires
        copy_of(a, b),
    ensures
        copy_of(mirror(a), mirror(b)),
    decreases a,
{
    match a {
        Some(x) => {
            let y = b->0;
            lemma_mirror_of_copy(x.left, y.left);
            lemma_mirror_of_copy(x.right, y.right);
        },
        None => {},
    }
}

} // verus!
