use tree::bfs::Visit;
use tree::Heap;
use tree::Size;
use tree::Tree;

fn seven(heap: &mut Heap<i32>) -> Tree {
    let root = Tree::new(heap, 0);
    let one = Tree::new(heap, 1);
    let two = Tree::new(heap, 2);
    let three = Tree::new(heap, 3);
    let four = Tree::new(heap, 4);
    let five = Tree::new(heap, 5);
    let six = Tree::new(heap, 6);
    one.root().push_back(heap, two);
    one.root().push_back(heap, three);
    four.root().push_back(heap, five);
    four.root().push_back(heap, six);
    root.root().push_back(heap, one);
    root.root().push_back(heap, four);
    root
}

#[test]
fn bfs_visits_level_by_level() {
    let mut heap = Heap::new();
    let tree = seven(&mut heap);
    let bfs = tree.root().bfs(&heap);
    assert_eq!(bfs.size, Size { degree: 1, node_cnt: 7 });
    let mut iter = bfs.wrap().iter();
    let mut visits = Vec::new();
    while let Some(visit) = iter.next(&heap) {
        visits.push(Visit { data: *visit.data.data(&heap), size: visit.size });
    }
    assert_eq!(
        visits,
        vec![
            Visit { data: 0, size: Size { degree: 2, node_cnt: 7 } },
            Visit { data: 1, size: Size { degree: 2, node_cnt: 3 } },
            Visit { data: 4, size: Size { degree: 2, node_cnt: 3 } },
            Visit { data: 2, size: Size { degree: 0, node_cnt: 1 } },
            Visit { data: 3, size: Size { degree: 0, node_cnt: 1 } },
            Visit { data: 5, size: Size { degree: 0, node_cnt: 1 } },
            Visit { data: 6, size: Size { degree: 0, node_cnt: 1 } },
        ]
    );
    assert!(iter.next(&heap).is_none());
}
