use std::cmp::Ordering;
use tree::fr;
use tree::tr;
use tree::Heap;
use tree::Node;
use tree::Size;
use tree::Tree;

fn leaf(heap: &mut Heap<i32>, data: i32) -> Tree {
    tr(heap, data, vec![])
}

fn seven(heap: &mut Heap<i32>) -> Tree {
    let two = leaf(heap, 2);
    let three = leaf(heap, 3);
    let one = tr(heap, 1, vec![two, three]);
    let five = leaf(heap, 5);
    let six = leaf(heap, 6);
    let four = tr(heap, 4, vec![five, six]);
    tr(heap, 0, vec![one, four])
}

fn size(heap: &Heap<i32>, node: Node) -> Size {
    heap.get(node.at).size
}

#[test]
fn literal_construction_keeps_the_order() {
    let mut heap = Heap::new();
    let tree = seven(&mut heap);
    assert_eq!(tree.to_string(&heap), "0( 1( 2 3 ) 4( 5 6 ) )");
    assert_eq!(size(&heap, tree.root()), Size { degree: 2, node_cnt: 7 });
    let a = leaf(&mut heap, 7);
    let b = seven(&mut heap);
    let c = leaf(&mut heap, 9);
    let forest = fr(&mut heap, vec![a, b, c]);
    assert_eq!(forest.to_string(&heap), "( 7 0( 1( 2 3 ) 4( 5 6 ) ) 9 )");
    assert_eq!(forest.size(), Size { degree: 3, node_cnt: 9 });
    let empty = fr(&mut heap, vec![]);
    assert!(empty.is_empty());
    tree.root().append(&mut heap, forest);
    assert_eq!(tree.to_string(&heap), "0( 1( 2 3 ) 4( 5 6 ) 7 0( 1( 2 3 ) 4( 5 6 ) ) 9 )");
    assert_eq!(size(&heap, tree.root()), Size { degree: 5, node_cnt: 16 });
}

#[test]
fn extend_puts_trees_at_the_back() {
    let mut heap = Heap::new();
    let tree = seven(&mut heap);
    let one = tree.root().first(&heap).unwrap();
    let a = leaf(&mut heap, 7);
    let b = leaf(&mut heap, 8);
    one.extend(&mut heap, vec![a, b]);
    one.extend(&mut heap, vec![]);
    assert_eq!(tree.to_string(&heap), "0( 1( 2 3 7 8 ) 4( 5 6 ) )");
    assert_eq!(size(&heap, one), Size { degree: 4, node_cnt: 5 });
    assert_eq!(size(&heap, tree.root()), Size { degree: 2, node_cnt: 9 });
}

#[test]
fn siblings_can_be_put_in_and_taken_out_anywhere() {
    let mut heap = Heap::new();
    let tree = seven(&mut heap);
    let one = tree.root().first(&heap).unwrap();
    let four = tree.root().last(&heap).unwrap();
    let a = leaf(&mut heap, 7);
    one.insert_before(&mut heap, a);
    let b = leaf(&mut heap, 8);
    one.insert_after(&mut heap, b);
    let c = leaf(&mut heap, 9);
    four.insert_after(&mut heap, c);
    assert_eq!(tree.to_string(&heap), "0( 7 1( 2 3 ) 8 4( 5 6 ) 9 )");
    assert_eq!(size(&heap, tree.root()), Size { degree: 5, node_cnt: 10 });
    assert_eq!(*tree.root().last(&heap).unwrap().data(&heap), 9);
    assert_eq!(*tree.root().first(&heap).unwrap().data(&heap), 7);
    let gone = four.depart(&mut heap);
    assert_eq!(gone.to_string(&heap), "4( 5 6 )");
    assert_eq!(gone.root().parent(&heap), None);
    assert_eq!(tree.to_string(&heap), "0( 7 1( 2 3 ) 8 9 )");
    assert_eq!(size(&heap, tree.root()), Size { degree: 4, node_cnt: 7 });
    let last = tree.root().last(&heap).unwrap().depart(&mut heap);
    assert_eq!(*last.root().data(&heap), 9);
    let first = tree.root().first(&heap).unwrap().depart(&mut heap);
    assert_eq!(*first.root().data(&heap), 7);
    assert_eq!(tree.to_string(&heap), "0( 1( 2 3 ) 8 )");
    let two = one.first(&heap).unwrap();
    let three = one.last(&heap).unwrap();
    two.depart(&mut heap);
    let only = three.depart(&mut heap);
    assert!(one.is_leaf(&heap));
    assert_eq!(size(&heap, one), Size { degree: 0, node_cnt: 1 });
    assert_eq!(size(&heap, tree.root()), Size { degree: 2, node_cnt: 3 });
    one.push_back(&mut heap, only);
    let d = leaf(&mut heap, 10);
    three.insert_before(&mut heap, d);
    let e = leaf(&mut heap, 11);
    three.insert_after(&mut heap, e);
    assert_eq!(tree.to_string(&heap), "0( 1( 10 3 11 ) 8 )");
}

#[test]
fn onto_iter_edits_at_the_cursor() {
    let mut heap = Heap::new();
    let one = leaf(&mut heap, 1);
    let two = leaf(&mut heap, 2);
    let three = leaf(&mut heap, 3);
    let tree = tr(&mut heap, 0, vec![one, two, three]);
    let mut iter = tree.root().onto_iter(&heap);
    assert_eq!(iter.len(), 3);
    let extra = leaf(&mut heap, 9);
    let back = iter.insert_before(&mut heap, extra);
    let extra = back.unwrap();
    assert!(iter.depart(&mut heap).is_none());
    let mut seen = Vec::new();
    let mut next = 10;
    loop {
        let node = match iter.next(&heap) {
            Some(node) => node,
            None => break,
        };
        let data = *node.data(&heap);
        seen.push(data);
        assert_eq!(iter.size_hint(&heap), (3 - seen.len(), Some(3 - seen.len())));
        if data == 2 {
            let gone = iter.depart(&mut heap).unwrap();
            assert_eq!(gone.root(), node);
            assert!(iter.depart(&mut heap).is_none());
        } else {
            let before = leaf(&mut heap, next);
            let after = leaf(&mut heap, next + 1);
            let later = leaf(&mut heap, next + 2);
            next += 10;
            assert!(iter.insert_before(&mut heap, before).is_none());
            assert!(iter.insert_after(&mut heap, after).is_none());
            assert!(iter.insert_after(&mut heap, later).is_none());
        }
    }
    assert_eq!(seen, vec![1, 2, 3]);
    assert_eq!(iter.len(), 0);
    assert_eq!(tree.to_string(&heap), "0( 10 1 12 11 20 3 22 21 )");
    assert_eq!(size(&heap, tree.root()), Size { degree: 8, node_cnt: 9 });
    assert_eq!(*tree.root().last(&heap).unwrap().data(&heap), 21);
    let mut none = extra.root().onto_iter(&heap);
    assert_eq!(none.len(), 0);
    assert!(none.next(&heap).is_none());
}

#[test]
fn payloads_change_in_place() {
    let mut heap = Heap::new();
    let tree = seven(&mut heap);
    *tree.root().data_mut(&mut heap) += 100;
    let mut iter = tree.root().iter_mut(&heap);
    assert_eq!(iter.len(), 2);
    while let Some(data) = iter.next(&mut heap) {
        *data *= 10;
    }
    assert_eq!(iter.len(), 0);
    assert!(iter.next(&mut heap).is_none());
    assert_eq!(tree.to_string(&heap), "100( 10( 2 3 ) 40( 5 6 ) )");
    assert_eq!(size(&heap, tree.root()), Size { degree: 2, node_cnt: 7 });
}

#[test]
fn equality_is_structural() {
    let mut heap = Heap::new();
    let mut other = Heap::new();
    let a = seven(&mut heap);
    let b = seven(&mut other);
    let c = seven(&mut heap);
    assert!(a.eq(&heap, &b, &other));
    assert!(a.eq(&heap, &c, &heap));
    assert!(!a.ne(&heap, &b, &other));
    let extra = leaf(&mut heap, 7);
    c.root().last(&heap).unwrap().push_back(&mut heap, extra);
    assert!(!a.eq(&heap, &c, &heap));
    assert!(a.ne(&heap, &c, &heap));
    other.replace(b.root().first(&other).unwrap().at, 10);
    assert!(a.ne(&heap, &b, &other));
    let one = a.root().first(&heap).unwrap();
    let four = a.root().last(&heap).unwrap();
    assert!(!one.eq(&heap, &four, &heap));
    assert!(one.eq(&heap, &one, &heap));
}

#[test]
fn order_goes_by_payload_then_by_children() {
    let mut heap = Heap::new();
    let a = seven(&mut heap);
    let b = seven(&mut heap);
    assert_eq!(a.cmp(&heap, &b, &heap), Ordering::Equal);
    assert_eq!(a.partial_cmp(&heap, &b, &heap), Some(Ordering::Equal));
    // a greater payload at the root decides, whatever the children
    let big = leaf(&mut heap, 1);
    assert_eq!(a.cmp(&heap, &big, &heap), Ordering::Less);
    assert_eq!(big.cmp(&heap, &a, &heap), Ordering::Greater);
    // a list of children that is a beginning of the other is the lesser
    let mut short = seven(&mut heap);
    short.root().pop_back(&mut heap);
    assert_eq!(short.cmp(&heap, &a, &heap), Ordering::Less);
    assert_eq!(a.partial_cmp(&heap, &short, &heap), Some(Ordering::Greater));
    // the first pair of children that differ decides
    heap.replace(b.root().first(&heap).unwrap().last(&heap).unwrap().at, 2);
    assert_eq!(a.cmp(&heap, &b, &heap), Ordering::Greater);
    heap.replace(b.root().last(&heap).unwrap().at, 9);
    assert_eq!(a.cmp(&heap, &b, &heap), Ordering::Greater);
    assert_eq!(b.partial_cmp(&heap, &a, &heap), Some(Ordering::Less));
    short = short.root().to_owned(&mut heap);
    assert_eq!(short.root().cmp(&heap, &a.root(), &heap), Ordering::Less);
}

#[test]
fn clone_copies_the_whole_subtree() {
    let mut heap = Heap::new();
    let tree = seven(&mut heap);
    let copy = tree.clone(&mut heap);
    assert!(copy.root() != tree.root());
    assert!(tree.eq(&heap, &copy, &heap));
    assert_eq!(copy.to_string(&heap), "0( 1( 2 3 ) 4( 5 6 ) )");
    assert_eq!(size(&heap, copy.root()), Size { degree: 2, node_cnt: 7 });
    heap.replace(copy.root().first(&heap).unwrap().at, 10);
    assert_eq!(tree.to_string(&heap), "0( 1( 2 3 ) 4( 5 6 ) )");
    assert_eq!(copy.to_string(&heap), "0( 10( 2 3 ) 4( 5 6 ) )");
    let part = tree.root().last(&heap).unwrap().to_owned(&mut heap);
    assert_eq!(part.to_string(&heap), "4( 5 6 )");
    assert_eq!(part.root().parent(&heap), None);
    assert_eq!(tree.to_string(&heap), "0( 1( 2 3 ) 4( 5 6 ) )");
}

#[test]
fn forest_is_taken_apart_level_by_level() {
    let mut heap = Heap::new();
    let a = seven(&mut heap);
    let b = leaf(&mut heap, 7);
    let forest = fr(&mut heap, vec![a, b]);
    let bfs = forest.into_bfs();
    assert_eq!(bfs.size, Size { degree: 2, node_cnt: 8 });
    let mut iter = bfs.iter;
    let mut seen = Vec::new();
    while let Some(visit) = iter.next(&mut heap) {
        seen.push((visit.data, visit.size.degree, visit.size.node_cnt));
    }
    assert_eq!(
        seen,
        vec![(0, 2, 7), (7, 0, 1), (1, 2, 3), (4, 2, 3), (2, 0, 1), (3, 0, 1), (5, 0, 1), (6, 0, 1)]
    );
}

#[test]
fn forest_drop_gives_up_every_tree() {
    let mut heap = Heap::new();
    let keep = seven(&mut heap);
    let a = seven(&mut heap);
    let b = leaf(&mut heap, 7);
    let highest = b.root().at;
    let forest = fr(&mut heap, vec![a, b]);
    forest.drop(&mut heap);
    assert_eq!(keep.to_string(&heap), "0( 1( 2 3 ) 4( 5 6 ) )");
    for n in 0..8 {
        let tree = leaf(&mut heap, n);
        assert!(tree.root().at <= highest);
    }
    let fresh = leaf(&mut heap, 0);
    assert_eq!(fresh.root().at, highest + 1);
}

#[test]
fn bfs_mut_hands_out_the_payloads_in_level_order() {
    let mut heap = Heap::new();
    let mut tree = seven(&mut heap);
    let mut iter = tree.root().bfs_mut(&heap).iter;
    let mut next = 10;
    let mut sizes = Vec::new();
    while let Some(visit) = iter.next(&mut heap) {
        sizes.push((visit.size.degree, visit.size.node_cnt));
        *visit.data = next;
        next += 1;
    }
    assert_eq!(sizes, vec![(2, 7), (2, 3), (2, 3), (0, 1), (0, 1), (0, 1), (0, 1)]);
    assert_eq!(tree.to_string(&heap), "10( 11( 13 14 ) 12( 15 16 ) )");
    *tree.root_mut(&mut heap) = 0;
    *tree.root().first_mut(&mut heap).unwrap() = 1;
    *tree.root().last_mut(&mut heap).unwrap() = 2;
    assert_eq!(tree.to_string(&heap), "0( 1( 13 14 ) 2( 15 16 ) )");
    let leaf = tree.root().first(&heap).unwrap().first(&heap).unwrap();
    assert!(leaf.first_mut(&mut heap).is_none());
    assert!(leaf.last_mut(&mut heap).is_none());
    let forest = tree.abandon(&mut heap);
    let mut trees = forest.iter_mut(&heap);
    while let Some(data) = trees.next(&mut heap) {
        *data += 100;
    }
    let mut iter = forest.bfs_mut(&heap).iter;
    let mut seen = Vec::new();
    while let Some(visit) = iter.next(&mut heap) {
        seen.push(*visit.data);
    }
    assert_eq!(seen, vec![101, 102, 13, 14, 15, 16]);
}
