use logviewer::layout::{contains_leaf, Dir, Layout, Node, RectLike};

fn ids_of(v: &[(u64, RectLike)]) -> Vec<u64> {
    v.iter().map(|x| x.0).collect()
}

#[test]
fn single_leaf() {
    let l = Layout::new(1);
    assert_eq!(l.leaf_ids(), vec![1]);
    let r = l.layout(RectLike { x: 0, y: 0, w: 100, h: 40 });
    assert_eq!(r, vec![(1, RectLike { x: 0, y: 0, w: 100, h: 40 })]);
}

#[test]
fn split_h_and_v() {
    let mut l = Layout::new(1);
    assert!(l.split_after(1, Dir::H, 2));
    assert_eq!(l.leaf_ids(), vec![1, 2]);
    assert!(l.split_after(2, Dir::V, 3));
    assert_eq!(l.leaf_ids(), vec![1, 2, 3]);
    let rects = l.layout(RectLike { x: 0, y: 0, w: 100, h: 100 });
    assert_eq!(ids_of(&rects), vec![1, 2, 3]);
    let r1 = rects.iter().find(|(i, _)| *i == 1).unwrap().1;
    assert!(r1.w <= 60 && r1.w >= 40);
    let r2 = rects.iter().find(|(i, _)| *i == 2).unwrap().1;
    let r3 = rects.iter().find(|(i, _)| *i == 3).unwrap().1;
    assert_eq!(r2.x, r3.x);
    assert_eq!(r2.w, r3.w);
    assert!(r2.y < r3.y);
}

#[test]
fn close_merges_parent() {
    let mut l = Layout::new(1);
    l.split_after(1, Dir::H, 2);
    l.split_after(2, Dir::V, 3);
    assert!(l.close(3));
    assert_eq!(l.leaf_ids(), vec![1, 2]);
    assert!(l.close(2));
    assert_eq!(l.leaf_ids(), vec![1]);
    assert!(matches!(l.root, Node::Leaf { id: 1 }));
}

#[test]
fn adjust_ratio_side() {
    let mut l = Layout::new(1);
    l.split_after(1, Dir::H, 2);
    l.adjust(1, 200_000_000);
    if let Node::Split { ratio, a, b, .. } = &l.root {
        assert_eq!(*ratio, 700_000_000);
        assert!(contains_leaf(a, 1));
        assert!(contains_leaf(b, 2));
    } else {
        panic!("expected split");
    }
    l.adjust(2, 200_000_000);
    if let Node::Split { ratio, .. } = &l.root {
        assert_eq!(*ratio, 500_000_000);
    } else {
        panic!("expected split");
    }
}

#[test]
fn adjust_axis_ancestor_split() {
    let mut l = Layout::new(1);
    l.split_relative(1, Dir::H, 2, false);
    l.split_relative(2, Dir::V, 3, false);
    let mut l2 = l.clone();
    assert!(l2.adjust_axis(3, true, true));
    if let Node::Split { ratio, a, b, .. } = &l2.root {
        assert!(contains_leaf(a, 1));
        assert!(contains_leaf(b, 3));
        assert_eq!(*ratio, 450_000_000);
    } else {
        panic!("root should stay H");
    }
    let mut l3 = l.clone();
    assert!(l3.adjust_axis(3, false, true));
    let b = match &l3.root {
        Node::Split { b, .. } => b,
        _ => panic!("root should stay H"),
    };
    match b.as_ref() {
        Node::Split {
            dir: Dir::V,
            ratio,
            b,
            ..
        } => {
            assert!(contains_leaf(b, 3));
            assert_eq!(*ratio, 450_000_000);
        }
        _ => panic!("expected V split under root b"),
    }
    let mut lone = Layout::new(7);
    assert!(!lone.adjust_axis(7, true, true));
}

#[test]
fn parent_dir_reports() {
    let mut l = Layout::new(1);
    l.split_after(1, Dir::H, 2);
    l.split_after(2, Dir::V, 3);
    assert_eq!(l.parent_dir(2), Some(Dir::V));
    assert_eq!(l.parent_dir(1), Some(Dir::H));
    assert!(l.parent_dir(3).is_some());
}

#[test]
fn sides() {
    let mut l = Layout::new(1);
    assert_eq!(l.side(1), None);
    l.split_after(1, Dir::H, 2);
    assert_eq!(l.side(1), Some((Dir::H, true)));
    assert_eq!(l.side(2), Some((Dir::H, false)));
    assert_eq!(l.side(9), None);
}

#[test]
fn splitting_and_closing() {
    let mut l = Layout::new(1);
    l.split_after(1, Dir::H, 2);
    let before = format!("{:?}", l.root);
    assert!(l.split_relative(2, Dir::V, 3, true));
    assert_eq!(l.leaf_ids(), vec![1, 3, 2]);
    assert!(l.close(3));
    assert_eq!(format!("{:?}", l.root), before);
    assert!(!l.split_after(8, Dir::H, 9));
    assert!(!l.close(8));
    let mut lone = Layout::new(1);
    assert!(lone.close(1));
    assert_eq!(lone.leaf_ids(), vec![u64::MAX]);
}

#[test]
fn panes_tile_their_area() {
    let mut l = Layout::new(1);
    l.split_after(1, Dir::H, 2);
    l.split_after(2, Dir::V, 3);
    l.split_after(1, Dir::V, 4);
    l.adjust_axis(3, true, true);
    let area = RectLike { x: 3, y: 2, w: 81, h: 25 };
    let rects = l.layout(area);
    for y in 0..40u16 {
        for x in 0..100u16 {
            let n = rects
                .iter()
                .filter(|(_, r)| r.x <= x && x < r.x + r.w && r.y <= y && y < r.y + r.h)
                .count();
            let inside = 3 <= x && x < 84 && 2 <= y && y < 27;
            assert_eq!(n, inside as usize, "{x} {y}");
        }
    }
    // Lower numbers stand to the left of higher ones, or above them.
    for i in 0..rects.len() {
        for j in i + 1..rects.len() {
            let (a, b) = (rects[i].1, rects[j].1);
            assert!(a.x + a.w <= b.x || a.y + a.h <= b.y);
        }
    }
}

#[test]
fn growing_and_balancing() {
    let mut l = Layout::new(1);
    l.split_after(1, Dir::H, 2);
    let area = RectLike { x: 0, y: 0, w: 100, h: 10 };
    let width = |l: &Layout| l.layout(area)[1].1.w;
    assert_eq!(width(&l), 50);
    l.adjust_axis(2, true, true);
    assert_eq!(width(&l), 55);
    l.adjust_axis(2, true, false);
    assert_eq!(width(&l), 50);
    for _ in 0..50 {
        l.adjust_axis(2, true, true);
    }
    assert_eq!(width(&l), 95);
    l.adjust(2, -1_000_000_000);
    assert_eq!(width(&l), 10);
    l.balance();
    assert_eq!(width(&l), 50);
}
