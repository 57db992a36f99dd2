use tree::Heap;
use tree::Node;
use tree::Size;
use tree::Tree;

fn leaf(heap: &mut Heap<i32>, data: i32) -> Tree {
    Tree::new(heap, data)
}

fn kids(heap: &Heap<i32>, node: Node) -> Vec<i32> {
    let mut out = Vec::new();
    let mut iter = node.iter(heap);
    while let Some(kid) = iter.next(heap) {
        out.push(*kid.data(heap));
    }
    out
}

#[test]
fn push_back_keeps_order_and_sizes() {
    let mut heap = Heap::new();
    let root = leaf(&mut heap, 0);
    let a = leaf(&mut heap, 1);
    let b = leaf(&mut heap, 2);
    let c = leaf(&mut heap, 3);
    a.root().push_back(&mut heap, b);
    root.root().push_back(&mut heap, a);
    root.root().push_back(&mut heap, c);
    assert_eq!(kids(&heap, root.root()), vec![1, 3]);
    assert_eq!(root.root().degree(&heap), 2);
    assert_eq!(root.root().node_count(&heap), 4);
    let first = root.root().first(&heap).unwrap();
    assert_eq!(first.node_count(&heap), 2);
    assert_eq!(first.parent(&heap), Some(root.root()));
    assert_eq!(heap.get(root.root().at).size, Size { degree: 2, node_cnt: 4 });
}

#[test]
fn push_below_updates_every_ancestor() {
    let mut heap = Heap::new();
    let root = leaf(&mut heap, 0);
    let a = leaf(&mut heap, 1);
    let b = leaf(&mut heap, 2);
    let a_at = a.root();
    let b_at = b.root();
    root.root().push_back(&mut heap, a);
    a_at.push_back(&mut heap, b);
    let c = leaf(&mut heap, 3);
    b_at.push_front(&mut heap, c);
    assert_eq!(root.root().node_count(&heap), 4);
    assert_eq!(a_at.node_count(&heap), 3);
    assert_eq!(b_at.node_count(&heap), 2);
    assert_eq!(root.root().degree(&heap), 1);
    let popped = a_at.pop_back(&mut heap).unwrap();
    assert_eq!(popped.root(), b_at);
    assert_eq!(root.root().node_count(&heap), 2);
    assert_eq!(a_at.node_count(&heap), 1);
    assert_eq!(b_at.node_count(&heap), 2);
    assert_eq!(b_at.parent(&heap), None);
}

#[test]
fn children_are_seen_as_a_forest() {
    let mut heap = Heap::new();
    let root = leaf(&mut heap, 0);
    let a = leaf(&mut heap, 1);
    let b = leaf(&mut heap, 2);
    let c = leaf(&mut heap, 3);
    a.root().push_back(&mut heap, c);
    let a_at = a.root();
    let b_at = b.root();
    {
        let none = root.root().forest(&heap);
        assert!(none.is_empty());
        assert_eq!(none.degree(), 0);
        assert_eq!(none.node_count(), 0);
        assert_eq!(none.first(), None);
        assert_eq!(none.last(), None);
    }
    root.root().push_back(&mut heap, a);
    root.root().push_back(&mut heap, b);
    let view = root.root().forest(&heap);
    assert!(!view.is_empty());
    assert_eq!(view.degree(), 2);
    assert_eq!(view.node_count(), 3);
    assert_eq!(view.first(), Some(a_at));
    assert_eq!(view.last(), Some(b_at));
    let mut iter = view.iter();
    assert_eq!(iter.next(&heap), Some(a_at));
    assert_eq!(iter.next(&heap), Some(b_at));
    assert_eq!(iter.next(&heap), None);
}
