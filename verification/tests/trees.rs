use binary_tree::generate::{checked_full_count, generate_tree, generate_tree_st, generate_walk};
use binary_tree::invert::{invert_tree, invert_tree_stack, invert_walk};
use binary_tree::render::{picture_line, tree_lines_st};
use binary_tree::tree::{checked_height, Node, RefNode};

fn leaf<T>(v: T) -> RefNode<T> {
    Node::ref_node(v, None, None)
}

fn values(lines: &[(&usize, usize)]) -> Vec<(usize, usize)> {
    let mut out = Vec::new();
    for (v, level) in lines {
        out.push((**v, *level));
    }
    out
}

fn leaf_levels<T>(t: &RefNode<T>, level: usize, out: &mut Vec<usize>, full: &mut bool) {
    if let Some(n) = t {
        match (&n.left, &n.right) {
            (None, None) => out.push(level),
            (Some(_), Some(_)) => {}
            _ => *full = false,
        }
        leaf_levels(&n.left, level + 1, out, full);
        leaf_levels(&n.right, level + 1, out, full);
    }
}

fn count<T>(t: &RefNode<T>) -> usize {
    match t {
        Some(n) => 1 + count(&n.left) + count(&n.right),
        None => 0,
    }
}

fn lopsided() -> RefNode<usize> {
    // 10 has only a left child, 20, whose right child is 30 with two leaves.
    Node::ref_node(
        10,
        Node::ref_node(20, None, Node::ref_node(30, leaf(40), leaf(50))),
        None,
    )
}

#[test]
fn new_makes_a_node_without_children() {
    let n = Node::new(7usize);
    assert_eq!(n.v, 7);
    assert!(n.left.is_none());
    assert!(n.right.is_none());
}

#[test]
fn ref_node_keeps_value_and_children() {
    let t = Node::ref_node(1usize, leaf(2), leaf(3));
    let n = t.unwrap();
    assert_eq!(n.v, 1);
    assert_eq!(n.left, leaf(2));
    assert_eq!(n.right, leaf(3));
}

#[test]
fn clone_is_a_deep_copy() {
    let t = lopsided().unwrap();
    let c = t.clone();
    assert_eq!(*t, *c);
}

#[test]
fn depth_zero_is_the_empty_tree() {
    assert_eq!(generate_tree_st(0), None);
    let mut counter = 5usize;
    assert_eq!(generate_tree(0, &mut counter), None);
    assert_eq!(counter, 5);
}

#[test]
fn depth_one_is_a_single_leaf() {
    assert_eq!(generate_tree_st(1), leaf(1));
}

#[test]
fn depth_two_numbers_root_then_left_then_right() {
    let t = generate_tree_st(2).unwrap();
    assert_eq!(t.v, 1);
    assert_eq!(t.left, leaf(2));
    assert_eq!(t.right, leaf(3));
}

#[test]
fn depth_three_numbering() {
    let want = Node::ref_node(
        1usize,
        Node::ref_node(2, leaf(3), leaf(4)),
        Node::ref_node(5, leaf(6), leaf(7)),
    );
    assert_eq!(generate_tree_st(3), want);
}

#[test]
fn recursive_generation_starts_after_the_counter() {
    let mut counter = 10usize;
    let t = generate_tree(2, &mut counter);
    assert_eq!(t, Node::ref_node(11, leaf(12), leaf(13)));
    assert_eq!(counter, 13);
}

#[test]
fn walk_and_recursion_generate_the_same_tree() {
    for depth in 0..8usize {
        let mut counter = 0usize;
        let by_recursion = generate_tree(depth, &mut counter);
        assert_eq!(generate_tree_st(depth), by_recursion);
        assert_eq!(counter, (1usize << depth) - 1);
    }
}

#[test]
fn generated_trees_are_perfect() {
    for depth in 1..8usize {
        let t = generate_tree_st(depth);
        let mut levels = Vec::new();
        let mut full = true;
        leaf_levels(&t, 0, &mut levels, &mut full);
        assert!(full);
        assert_eq!(levels.len(), 1usize << (depth - 1));
        assert!(levels.iter().all(|l| *l == depth - 1));
        assert_eq!(count(&t), (1usize << depth) - 1);
    }
}

#[test]
fn generating_walk_ends_with_one_result() {
    let (calls, rets) = generate_walk(4);
    assert!(calls.is_empty());
    assert_eq!(rets.len(), 1);
    assert_eq!(rets[0], generate_tree_st(4));
}

#[test]
fn two_level_tree_inverts_by_hand() {
    let t = Node::ref_node(1usize, leaf(2), leaf(3));
    let want = Node::ref_node(1usize, leaf(3), leaf(2));
    assert_eq!(invert_tree_stack(&t), want);
    assert_eq!(invert_tree(t), want);
}

#[test]
fn empty_tree_inverts_to_itself() {
    let t: RefNode<usize> = None;
    assert_eq!(invert_tree_stack(&t), None);
    assert_eq!(invert_tree(t), None);
}

#[test]
fn lopsided_tree_inverts() {
    let want = Node::ref_node(
        10usize,
        None,
        Node::ref_node(20, Node::ref_node(30, leaf(50), leaf(40)), None),
    );
    assert_eq!(invert_tree_stack(&lopsided()), want);
}

#[test]
fn walk_inverts_as_recursion_does() {
    for depth in 0..7usize {
        let t = generate_tree_st(depth);
        let walked = invert_tree_stack(&t);
        assert_eq!(walked, invert_tree(t));
    }
    let walked = invert_tree_stack(&lopsided());
    assert_eq!(walked, invert_tree(lopsided()));
}

#[test]
fn inverting_twice_gives_the_tree_back() {
    for depth in 0..7usize {
        let t = generate_tree_st(depth);
        let twice = invert_tree_stack(&invert_tree_stack(&t));
        assert_eq!(twice, t);
        assert_eq!(invert_tree(invert_tree(generate_tree_st(depth))), t);
    }
    assert_eq!(invert_tree_stack(&invert_tree_stack(&lopsided())), lopsided());
}

#[test]
fn inverting_leaves_the_input_as_it_was() {
    let t = generate_tree_st(3);
    let inverted = invert_tree_stack(&t);
    assert_eq!(t, generate_tree_st(3));
    assert_ne!(inverted, t);
}

#[test]
fn inverting_walk_ends_with_one_result() {
    let t = generate_tree_st(3);
    let (calls, rets) = invert_walk(&t);
    assert!(calls.is_empty());
    assert_eq!(rets.len(), 1);
    assert_eq!(rets[0], invert_tree_stack(&t));
}

#[test]
fn trees_of_strings_invert() {
    let t = Node::ref_node(String::from("a"), leaf(String::from("b")), None);
    let want = Node::ref_node(String::from("a"), None, leaf(String::from("b")));
    assert_eq!(invert_tree_stack(&t), want);
}

#[test]
fn deep_chain_inverts_without_recursion() {
    let mut t: RefNode<usize> = None;
    for i in 0..2000usize {
        t = Node::ref_node(i, t, None);
    }
    let inverted = invert_tree_stack(&t);
    let mut seen = 0usize;
    let mut at = &inverted;
    while let Some(n) = at {
        assert!(n.left.is_none());
        assert_eq!(n.v, 1999 - seen);
        seen += 1;
        at = &n.right;
    }
    assert_eq!(seen, 2000);
}

#[test]
fn picture_of_depth_three() {
    let t = generate_tree_st(3);
    let lines = tree_lines_st(&t);
    assert_eq!(
        values(&lines),
        vec![(7, 2), (5, 1), (6, 2), (1, 0), (4, 2), (2, 1), (3, 2)]
    );
    let by_recursion = t.as_ref().unwrap().tree_lines(0);
    assert_eq!(values(&by_recursion), values(&lines));
}

#[test]
fn picture_of_the_inverted_tree_is_upside_down() {
    let t = generate_tree_st(3);
    let inverted = invert_tree_stack(&t);
    let before = values(&tree_lines_st(&t));
    let after = values(&tree_lines_st(&inverted));
    assert_eq!(
        after,
        vec![(3, 2), (2, 1), (4, 2), (1, 0), (6, 2), (5, 1), (7, 2)]
    );
    assert_eq!(after.len(), before.len());
    let mut turned = before.clone();
    turned.reverse();
    assert_eq!(after, turned);
    let mut levels_before: Vec<usize> = before.iter().map(|l| l.1).collect();
    let mut levels_after: Vec<usize> = after.iter().map(|l| l.1).collect();
    levels_before.sort();
    levels_after.sort();
    assert_eq!(levels_before, levels_after);
}

#[test]
fn picture_of_a_lopsided_tree() {
    let t = lopsided();
    let lines = tree_lines_st(&t);
    assert_eq!(
        values(&lines),
        vec![(10, 0), (50, 3), (30, 2), (40, 3), (20, 1)]
    );
    let by_recursion = t.as_ref().unwrap().tree_lines(0);
    assert_eq!(values(&by_recursion), values(&lines));
}

#[test]
fn picture_of_the_empty_tree_has_no_line() {
    let t: RefNode<usize> = None;
    assert!(tree_lines_st(&t).is_empty());
}

#[test]
fn recursive_picture_starts_at_the_given_level() {
    let t = Node::ref_node(1usize, leaf(2), leaf(3)).unwrap();
    assert_eq!(values(&t.tree_lines(4)), vec![(3, 5), (1, 4), (2, 5)]);
}

#[test]
fn visit_order_is_root_left_right() {
    let t = generate_tree_st(3).unwrap();
    let order: Vec<usize> = t.visit_order().iter().map(|v| **v).collect();
    assert_eq!(order, vec![1, 2, 3, 4, 5, 6, 7]);
    let l = lopsided().unwrap();
    let order: Vec<usize> = l.visit_order().iter().map(|v| **v).collect();
    assert_eq!(order, vec![10, 20, 30, 40, 50]);
}

#[test]
fn picture_line_indents_by_two_spaces_a_level() {
    assert_eq!(picture_line("7", 0), "7");
    assert_eq!(picture_line("7", 1), "  7");
    assert_eq!(picture_line("12", 3), "      12");
    assert_eq!(picture_line("", 2), "    ");
}

#[test]
fn height_counts_the_levels() {
    let empty: RefNode<usize> = None;
    assert_eq!(checked_height(&empty), Some(0));
    assert_eq!(checked_height(&leaf(1usize)), Some(1));
    assert_eq!(checked_height(&lopsided()), Some(4));
    assert_eq!(checked_height(&generate_tree_st(5)), Some(5));
}

#[test]
fn full_count_is_one_less_than_a_power_of_two() {
    assert_eq!(checked_full_count(0), Some(0));
    assert_eq!(checked_full_count(1), Some(1));
    assert_eq!(checked_full_count(3), Some(7));
    assert_eq!(checked_full_count(10), Some(1023));
    assert_eq!(checked_full_count(usize::BITS as usize), Some(usize::MAX));
    assert_eq!(checked_full_count(usize::BITS as usize + 1), None);
    assert_eq!(checked_full_count(usize::MAX), None);
}
