use tree::Size;

#[test]
fn test_add() {
    let mut s1 = Size { degree: 0, node_cnt: 0 };

    let s2 = Size { degree: 2, node_cnt: 3 };

    assert_eq!((s1 + s2).node_cnt, 3);
    assert_eq!((s1 + s2).degree, 2);

    s1 += s2;
    assert_eq!(s1.node_cnt, 3);
    assert_eq!(s1.degree, 2);
}

#[test]
fn sub_is_field_wise() {
    let a = Size { degree: 5, node_cnt: 9 };
    let b = Size { degree: 2, node_cnt: 3 };
    assert_eq!(a - b, Size { degree: 3, node_cnt: 6 });
    let mut c = a;
    c -= b;
    assert_eq!(c, Size { degree: 3, node_cnt: 6 });
}

#[test]
fn assign_wraps_around() {
    let mut a = Size { degree: u32::MAX, node_cnt: 7 };
    a += Size { degree: 2, node_cnt: 1 };
    assert_eq!(a, Size { degree: 1, node_cnt: 8 });
    let mut b = Size { degree: 0, node_cnt: 0 };
    b -= Size { degree: 1, node_cnt: 0 };
    assert_eq!(b, Size { degree: u32::MAX, node_cnt: 0 });
}
