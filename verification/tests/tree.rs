use tree::bfs::Visit;
use tree::Forest;
use tree::Heap;
use tree::Node;
use tree::Size;
use tree::Tree;

fn seven(heap: &mut Heap<i32>) -> Tree {
    let root = Tree::new(heap, 0);
    let one = Tree::new(heap, 1);
    let two = Tree::new(heap, 2);
    let three = Tree::new(heap, 3);
    let four = Tree::new(heap, 4);
    let five = Tree::new(heap, 5);
    let six = Tree::new(heap, 6);
    one.root().push_back(heap, two);
    one.root().push_back(heap, three);
    four.root().push_back(heap, five);
    four.root().push_back(heap, six);
    root.root().push_back(heap, one);
    root.root().push_back(heap, four);
    root
}

fn size(heap: &Heap<i32>, node: Node) -> Size {
    heap.get(node.at).size
}

/// Checks the cached sizes of every node below `node` against its children.
fn check_sizes(heap: &Heap<i32>, node: Node) -> u32 {
    let mut degree = 0;
    let mut count = 1;
    let mut prev: Option<Node> = None;
    let mut iter = node.iter(heap);
    assert_eq!(iter.len(), node.degree(heap));
    while let Some(kid) = iter.next(heap) {
        assert_eq!(kid.parent(heap), Some(node));
        if let Some(p) = prev {
            assert_eq!(heap.get(p.at).next, kid.at);
            assert_eq!(heap.get(kid.at).prev, p.at);
        }
        prev = Some(kid);
        degree += 1;
        count += check_sizes(heap, kid);
    }
    assert_eq!(prev, node.last(heap));
    assert_eq!(size(heap, node), Size { degree, node_cnt: count });
    count
}

#[test]
fn new_tree_is_a_single_node() {
    let mut heap = Heap::new();
    let tree = Tree::new(&mut heap, 5);
    let root = tree.root();
    assert!(root.is_leaf(&heap));
    assert_eq!(root.degree(&heap), 0);
    assert_eq!(root.node_count(&heap), 1);
    assert_eq!(root.first(&heap), None);
    assert_eq!(root.last(&heap), None);
    assert_eq!(root.parent(&heap), None);
    assert_eq!(*root.data(&heap), 5);
    assert!(heap.get(root.at).has_no_sib(root.at));
    assert_eq!(size(&heap, root), Size { degree: 0, node_cnt: 1 });
}

#[test]
fn sizes_hold_at_every_node_after_every_mutator() {
    let mut heap = Heap::new();
    let tree = seven(&mut heap);
    let root = tree.root();
    assert_eq!(check_sizes(&heap, root), 7);
    let one = root.first(&heap).unwrap();
    let four = root.last(&heap).unwrap();
    let extra = Tree::new(&mut heap, 7);
    one.first(&heap).unwrap().push_front(&mut heap, extra);
    assert_eq!(check_sizes(&heap, root), 8);
    assert_eq!(size(&heap, one), Size { degree: 2, node_cnt: 4 });
    let popped = four.pop_front(&mut heap).unwrap();
    assert_eq!(*popped.root().data(&heap), 5);
    assert_eq!(check_sizes(&heap, root), 7);
    assert_eq!(check_sizes(&heap, popped.root()), 1);
    one.push_front(&mut heap, popped);
    assert_eq!(check_sizes(&heap, root), 8);
    assert_eq!(tree.to_string(&heap), "0( 1( 5 2( 7 ) 3 ) 4( 6 ) )");
    let mut sub = root.pop_front(&mut heap).unwrap();
    assert_eq!(check_sizes(&heap, root), 3);
    assert_eq!(check_sizes(&heap, sub.root()), 5);
    let forest = sub.abandon(&mut heap);
    assert_eq!(forest.degree(), 3);
    assert_eq!(forest.node_count(), 4);
    assert_eq!(check_sizes(&heap, sub.root()), 1);
    four.prepend(&mut heap, forest);
    assert_eq!(check_sizes(&heap, root), 7);
    assert_eq!(tree.to_string(&heap), "0( 4( 5 2( 7 ) 3 6 ) )");
    let mut four_tree = root.pop_back(&mut heap).unwrap();
    let forest = four_tree.abandon(&mut heap);
    root.append(&mut heap, forest);
    root.push_front(&mut heap, four_tree);
    root.push_back(&mut heap, sub);
    assert_eq!(check_sizes(&heap, root), 8);
    assert_eq!(tree.to_string(&heap), "0( 4 5 2( 7 ) 3 6 1 )");
}

#[test]
fn push_then_pop_restores_the_node() {
    let mut heap = Heap::new();
    let tree = seven(&mut heap);
    let one = tree.root().first(&heap).unwrap();
    let before = tree.to_string(&heap);
    let size_before = size(&heap, one);
    let root_before = size(&heap, tree.root());
    let sub = Tree::new(&mut heap, 8);
    let leaf = Tree::new(&mut heap, 9);
    sub.root().push_back(&mut heap, leaf);
    let sub_at = sub.root();
    let sub_text = sub.to_string(&heap);
    one.push_back(&mut heap, sub);
    assert_eq!(tree.to_string(&heap), "0( 1( 2 3 8( 9 ) ) 4( 5 6 ) )");
    let back = one.pop_back(&mut heap).unwrap();
    assert_eq!(back.root(), sub_at);
    assert_eq!(back.to_string(&heap), sub_text);
    assert_eq!(tree.to_string(&heap), before);
    assert_eq!(size(&heap, one), size_before);
    assert_eq!(size(&heap, tree.root()), root_before);
    one.push_front(&mut heap, back);
    let front = one.pop_front(&mut heap).unwrap();
    assert_eq!(front.root(), sub_at);
    assert_eq!(tree.to_string(&heap), before);
}

#[test]
fn pop_of_a_leaf_gives_nothing() {
    let mut heap = Heap::new();
    let tree = Tree::new(&mut heap, 1);
    assert!(tree.root().pop_front(&mut heap).is_none());
    assert!(tree.root().pop_back(&mut heap).is_none());
    assert_eq!(size(&heap, tree.root()), Size { degree: 0, node_cnt: 1 });
}

#[test]
fn abandon_of_a_leaf_gives_an_empty_forest() {
    let mut heap = Heap::new();
    let mut tree = Tree::new(&mut heap, 1);
    let forest = tree.abandon(&mut heap);
    assert!(forest.is_empty());
    assert_eq!(forest.degree(), 0);
    assert_eq!(forest.node_count(), 0);
    assert_eq!(size(&heap, tree.root()), Size { degree: 0, node_cnt: 1 });
    let again = tree.abandon(&mut heap);
    assert!(again.is_empty());
    assert_eq!(size(&heap, tree.root()), Size { degree: 0, node_cnt: 1 });
    tree.root().append(&mut heap, forest);
    tree.root().prepend(&mut heap, again);
    assert_eq!(size(&heap, tree.root()), Size { degree: 0, node_cnt: 1 });
}

#[test]
fn abandon_detaches_all_children() {
    let mut heap = Heap::new();
    let mut tree = seven(&mut heap);
    let forest = tree.abandon(&mut heap);
    assert_eq!(size(&heap, tree.root()), Size { degree: 0, node_cnt: 1 });
    assert_eq!(forest.size(), Size { degree: 2, node_cnt: 6 });
    assert_eq!(forest.to_string(&heap), "( 1( 2 3 ) 4( 5 6 ) )");
    let first = forest.first(&heap).unwrap();
    assert_eq!(first.parent(&heap), None);
    assert_eq!(check_sizes(&heap, first), 3);
}

#[test]
fn forest_push_and_pop_at_both_ends() {
    let mut heap = Heap::new();
    let mut forest = Forest::new();
    assert!(forest.is_empty());
    assert!(forest.pop_front(&mut heap).is_none());
    assert!(forest.pop_back(&mut heap).is_none());
    assert_eq!(forest.first(&heap), None);
    let a = Tree::new(&mut heap, 1);
    let b = seven(&mut heap);
    let c = Tree::new(&mut heap, 3);
    forest.push_back(&mut heap, b);
    forest.push_front(&mut heap, a);
    forest.push_back(&mut heap, c);
    assert_eq!(forest.size(), Size { degree: 3, node_cnt: 9 });
    assert_eq!(forest.to_string(&heap), "( 1 0( 1( 2 3 ) 4( 5 6 ) ) 3 )");
    let mut iter = forest.iter(&heap);
    assert_eq!(iter.len(), 3);
    let mut seen = Vec::new();
    while let Some(node) = iter.next(&heap) {
        seen.push(*node.data(&heap));
    }
    assert_eq!(seen, vec![1, 0, 3]);
    let last = forest.pop_back(&mut heap).unwrap();
    assert_eq!(*last.root().data(&heap), 3);
    assert!(heap.get(last.root().at).has_no_sib(last.root().at));
    let first = forest.pop_front(&mut heap).unwrap();
    assert_eq!(*first.root().data(&heap), 1);
    assert_eq!(forest.size(), Size { degree: 1, node_cnt: 7 });
    assert_eq!(forest.last(&heap), forest.first(&heap));
    let only = forest.pop_front(&mut heap).unwrap();
    assert_eq!(only.to_string(&heap), "0( 1( 2 3 ) 4( 5 6 ) )");
    assert!(forest.is_empty());
    assert_eq!(forest.size(), Size { degree: 0, node_cnt: 0 });
}

#[test]
fn iterator_reports_exactly_what_is_left() {
    let mut heap = Heap::new();
    let tree = Tree::new(&mut heap, 0);
    for n in 0..4usize {
        let mut iter = tree.root().iter(&heap);
        let mut left = n;
        loop {
            assert_eq!(iter.len(), left);
            assert_eq!(iter.size_hint(&heap), (left, Some(left)));
            if iter.next(&heap).is_none() {
                break;
            }
            left -= 1;
        }
        assert_eq!(left, 0);
        assert!(iter.next(&heap).is_none());
        assert_eq!(iter.len(), 0);
        let kid = Tree::new(&mut heap, n as i32);
        tree.root().push_back(&mut heap, kid);
    }
}

#[test]
fn into_bfs_hands_out_the_payloads_level_by_level() {
    let mut heap = Heap::new();
    let tree = seven(&mut heap);
    let root = tree.root();
    let (mut iter, size) = tree.into_bfs(&heap).wrap().iter_and_size();
    assert_eq!(size, Size { degree: 1, node_cnt: 7 });
    let mut visits = Vec::new();
    while let Some(visit) = iter.next(&mut heap) {
        visits.push(visit);
    }
    assert_eq!(
        visits,
        vec![
            Visit { data: 0, size: Size { degree: 2, node_cnt: 7 } },
            Visit { data: 1, size: Size { degree: 2, node_cnt: 3 } },
            Visit { data: 4, size: Size { degree: 2, node_cnt: 3 } },
            Visit { data: 2, size: Size { degree: 0, node_cnt: 1 } },
            Visit { data: 3, size: Size { degree: 0, node_cnt: 1 } },
            Visit { data: 5, size: Size { degree: 0, node_cnt: 1 } },
            Visit { data: 6, size: Size { degree: 0, node_cnt: 1 } },
        ]
    );
    // every slot has been given up, and is handed out again
    let again = Tree::new(&mut heap, 1);
    assert!(again.root().at <= root.at + 6);
}

#[test]
fn drop_gives_up_every_node() {
    let mut heap = Heap::new();
    let keep = Tree::new(&mut heap, 100);
    let tree = seven(&mut heap);
    let highest = Tree::new(&mut heap, 0).root().at;
    tree.drop(&mut heap);
    assert_eq!(*keep.root().data(&heap), 100);
    assert_eq!(size(&heap, keep.root()), Size { degree: 0, node_cnt: 1 });
    for n in 0..7 {
        let tree = Tree::new(&mut heap, n);
        assert!(tree.root().at < highest);
    }
    let fresh = Tree::new(&mut heap, 7);
    assert_eq!(fresh.root().at, highest + 1);
}

#[test]
fn payload_can_be_replaced() {
    let mut heap = Heap::new();
    let tree = seven(&mut heap);
    let one = tree.root().first(&heap).unwrap();
    assert_eq!(heap.replace(one.at, 10), 1);
    assert_eq!(tree.to_string(&heap), "0( 10( 2 3 ) 4( 5 6 ) )");
}

#[test]
fn bfs_wrappers_tell_tree_from_forest() {
    let mut heap = Heap::new();
    let mut tree = seven(&mut heap);
    assert!(tree.root().bfs(&heap).wrap().tree_iter().is_some());
    assert!(tree.root().bfs(&heap).wrap().forest_iter().is_none());
    let forest = tree.abandon(&mut heap);
    let bfs = forest.bfs(&heap);
    assert_eq!(bfs.size, Size { degree: 2, node_cnt: 6 });
    assert!(forest.bfs(&heap).wrap().tree_iter().is_none());
    let mut iter = bfs.wrap().forest_iter().unwrap();
    let mut seen = Vec::new();
    while let Some(visit) = iter.next(&heap) {
        seen.push((*visit.data.data(&heap), visit.size.degree, visit.size.node_cnt));
    }
    assert_eq!(seen, vec![(1, 2, 3), (4, 2, 3), (2, 0, 1), (3, 0, 1), (5, 0, 1), (6, 0, 1)]);
}

#[test]
fn replace_on_a_node_changes_the_payload_only() {
    let mut heap = Heap::new();
    let tree = seven(&mut heap);
    let four = tree.root().last(&heap).unwrap();
    assert_eq!(four.replace(&mut heap, 40), 4);
    assert_eq!(tree.to_string(&heap), "0( 1( 2 3 ) 40( 5 6 ) )");
    assert_eq!(check_sizes(&heap, tree.root()), 7);
    assert!(heap.is_live(four.at));
    assert!(!heap.is_live(1000));
}
