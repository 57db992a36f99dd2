use tree::Forest;
use tree::Heap;
use tree::Render;
use tree::Tree;

fn seven(heap: &mut Heap<i32>) -> Tree {
    let root = Tree::new(heap, 0);
    let one = Tree::new(heap, 1);
    let two = Tree::new(heap, 2);
    let three = Tree::new(heap, 3);
    let four = Tree::new(heap, 4);
    let five = Tree::new(heap, 5);
    let six = Tree::new(heap, 6);
    one.root().push_back(heap, two);
    one.root().push_back(heap, three);
    four.root().push_back(heap, five);
    four.root().push_back(heap, six);
    root.root().push_back(heap, one);
    root.root().push_back(heap, four);
    root
}

#[test]
fn nested_shape_renders_with_its_brackets() {
    let mut heap = Heap::new();
    let tree = seven(&mut heap);
    assert_eq!(tree.to_string(&heap), "0( 1( 2 3 ) 4( 5 6 ) )");
    let first = tree.root().first(&heap).unwrap();
    assert_eq!(first.to_string(&heap), "1( 2 3 )");
}

#[test]
fn leaf_renders_as_its_payload() {
    let mut heap = Heap::new();
    let tree = Tree::new(&mut heap, -17);
    assert_eq!(tree.to_string(&heap), "-17");
}

#[test]
fn forest_renders_in_parentheses() {
    let mut heap = Heap::new();
    let mut tree = Tree::new(&mut heap, 0);
    let one = Tree::new(&mut heap, 1);
    let two = Tree::new(&mut heap, 2);
    tree.root().push_back(&mut heap, one);
    tree.root().push_back(&mut heap, two);
    let forest = tree.abandon(&mut heap);
    assert_eq!(forest.to_string(&heap), "( 1 2 )");
    assert_eq!(tree.to_string(&heap), "0");
    let empty: Forest = Forest::new();
    assert_eq!(empty.to_string(&heap), "( )");
}

#[test]
fn integers_render_in_decimal() {
    assert_eq!(0u8.render(), "0");
    assert_eq!(255u8.render(), "255");
    assert_eq!(65535u16.render(), "65535");
    assert_eq!(4294967295u32.render(), "4294967295");
    assert_eq!(u64::MAX.render(), "18446744073709551615");
    assert_eq!(1234567890usize.render(), "1234567890");
    assert_eq!((-128i8).render(), "-128");
    assert_eq!(i16::MIN.render(), "-32768");
    assert_eq!(i32::MIN.render(), "-2147483648");
    assert_eq!(i32::MAX.render(), "2147483647");
    assert_eq!(i64::MIN.render(), "-9223372036854775808");
    assert_eq!(10i64.render(), "10");
    assert_eq!("ab c".to_string().render(), "ab c");
}
