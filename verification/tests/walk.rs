use tree::walk::Visit;
use tree::Heap;
use tree::Node;
use tree::Tree;
use tree::TreeWalk;

fn seven(heap: &mut Heap<i32>) -> Tree {
    let root = Tree::new(heap, 0);
    let one = Tree::new(heap, 1);
    let two = Tree::new(heap, 2);
    let three = Tree::new(heap, 3);
    let four = Tree::new(heap, 4);
    let five = Tree::new(heap, 5);
    let six = Tree::new(heap, 6);
    one.root().push_back(heap, two);
    one.root().push_back(heap, three);
    four.root().push_back(heap, five);
    four.root().push_back(heap, six);
    root.root().push_back(heap, one);
    root.root().push_back(heap, four);
    root
}

fn show(heap: &Heap<i32>, visit: Option<Visit>) -> String {
    match visit {
        None => "None".to_string(),
        Some(Visit::Begin(node)) => format!("Begin({})", node.data(heap)),
        Some(Visit::End(node)) => format!("End({})", node.data(heap)),
        Some(Visit::Leaf(node)) => format!("Leaf({})", node.data(heap)),
    }
}

#[test]
fn walk_reports_depth_first_order() {
    let mut heap = Heap::new();
    let tree = seven(&mut heap);
    let mut walk = TreeWalk::from(tree, &heap);
    let mut seen = vec![show(&heap, walk.get())];
    loop {
        let visit = walk.next(&heap);
        if visit.is_none() {
            break;
        }
        seen.push(show(&heap, visit));
    }
    assert_eq!(
        seen,
        vec![
            "Begin(0)", "Begin(1)", "Leaf(2)", "Leaf(3)", "End(1)", "Begin(4)", "Leaf(5)", "Leaf(6)",
            "End(4)", "End(0)"
        ]
    );
    assert_eq!(walk.get(), None);
    assert_eq!(walk.next(&heap), None);
    assert_eq!(walk.get(), None);
}

#[test]
fn walk_of_a_single_node() {
    let mut heap = Heap::new();
    let tree = Tree::new(&mut heap, 9);
    let root = tree.root();
    let mut walk = TreeWalk::from(tree, &heap);
    assert_eq!(walk.get(), Some(Visit::Leaf(root)));
    assert_eq!(walk.next(&heap), None);
    walk.revisit(&heap);
    assert_eq!(walk.get(), Some(Visit::Leaf(root)));
    let tree: Tree = walk.into();
    assert_eq!(tree.root(), root);
}

#[test]
fn jumps_of_the_cursor() {
    let mut heap = Heap::new();
    let tree = seven(&mut heap);
    let root = tree.root();
    let mut walk = TreeWalk::from(tree, &heap);
    assert_eq!(walk.get_parent(), None);
    assert_eq!(show(&heap, walk.to_child(&heap, 1)), "Begin(4)");
    assert_eq!(walk.get_parent(), Some(root));
    assert_eq!(show(&heap, walk.to_child(&heap, 0)), "Leaf(5)");
    assert_eq!(show(&heap, walk.to_sib(&heap, 1)), "Leaf(6)");
    assert_eq!(show(&heap, walk.to_sib(&heap, 1)), "None");
    assert_eq!(show(&heap, walk.next(&heap)), "End(4)");
    assert_eq!(show(&heap, walk.to_parent(&heap)), "End(0)");
    assert_eq!(show(&heap, walk.to_parent(&heap)), "None");
    assert_eq!(show(&heap, walk.to_child(&heap, 0)), "None");
    walk.revisit(&heap);
    assert_eq!(show(&heap, walk.get()), "Begin(0)");
    assert_eq!(show(&heap, walk.to_child(&heap, 2)), "None");
    assert_eq!(show(&heap, walk.next(&heap)), "End(0)");
}

#[test]
fn visit_names_its_node() {
    let node = Node { at: 3 };
    assert_eq!(Visit::Begin(node).node(), node);
    assert_eq!(Visit::End(node).node(), node);
    assert_eq!(Visit::Leaf(node).node(), node);
}

#[test]
fn forest_walk_goes_tree_by_tree() {
    let mut heap = Heap::new();
    let mut tree = seven(&mut heap);
    let forest = tree.abandon(&mut heap);
    let mut walk = tree::ForestWalk::from(forest, &heap);
    let mut seen = vec![show(&heap, walk.get())];
    loop {
        let visit = walk.next(&heap);
        if visit.is_none() {
            break;
        }
        seen.push(show(&heap, visit));
    }
    assert_eq!(
        seen,
        vec!["Begin(1)", "Leaf(2)", "Leaf(3)", "End(1)", "Begin(4)", "Leaf(5)", "Leaf(6)", "End(4)"]
    );
    assert_eq!(walk.get(), None);
    walk.revisit(&heap);
    assert_eq!(show(&heap, walk.get()), "Begin(1)");
    assert_eq!(show(&heap, walk.to_sib(&heap, 1)), "Begin(4)");
    assert_eq!(walk.get_parent(), None);
    assert_eq!(show(&heap, walk.to_child(&heap, 1)), "Leaf(6)");
    assert_eq!(show(&heap, walk.to_parent(&heap)), "End(4)");
    walk.forward(&heap);
    assert_eq!(walk.get(), None);
    let forest: tree::Forest = walk.into();
    assert_eq!(forest.degree(), 2);
}

#[test]
fn walk_over_an_empty_forest_is_over_at_once() {
    let heap: Heap<i32> = Heap::new();
    let mut walk = tree::ForestWalk::from(tree::Forest::new(), &heap);
    assert_eq!(walk.get(), None);
    assert_eq!(walk.next(&heap), None);
    walk.revisit(&heap);
    assert_eq!(walk.get(), None);
    assert_eq!(walk.to_child(&heap, 0), None);
    assert_eq!(walk.to_sib(&heap, 0), None);
    assert_eq!(walk.to_parent(&heap), None);
    assert_eq!(walk.get_parent(), None);
}

#[test]
fn to_sib_of_nothing_stays() {
    let mut heap = Heap::new();
    let tree = seven(&mut heap);
    let mut walk = TreeWalk::from(tree, &heap);
    assert_eq!(show(&heap, walk.to_sib(&heap, 0)), "Begin(0)");
    assert_eq!(show(&heap, walk.to_child(&heap, 0)), "Begin(1)");
    assert_eq!(show(&heap, walk.to_sib(&heap, 0)), "Begin(1)");
    assert_eq!(show(&heap, walk.to_sib(&heap, 2)), "None");
    assert_eq!(show(&heap, walk.next(&heap)), "End(0)");
}
