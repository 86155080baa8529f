use adb_explorer::layout::{
    resize_layout, Direction, Layout, LayoutEngine, LayoutError, LayoutSize, LayoutStyle,
};

fn two_pane_tree(engine: &mut LayoutEngine) -> (usize, usize, usize) {
    let left = engine.new_node(LayoutStyle::default(), Vec::new());
    let right = engine.new_node(LayoutStyle::default(), Vec::new());
    let root = engine.new_node(
        LayoutStyle { direction: Direction::LeftRight },
        vec![left, right],
    );
    (left, right, root)
}

#[test]
fn root_gets_the_outer_rectangle() {
    let mut engine = LayoutEngine::new();
    let (_, _, root) = two_pane_tree(&mut engine);
    engine.compute_layout(root, LayoutSize::new(100, 40)).unwrap();
    assert_eq!(
        engine.get_layout(root).unwrap(),
        &Layout { x: 0, y: 0, w: 100, h: 40 }
    );
}

#[test]
fn left_right_split_of_even_width() {
    let mut engine = LayoutEngine::new();
    let (left, right, root) = two_pane_tree(&mut engine);
    engine.compute_layout(root, LayoutSize::new(100, 40)).unwrap();
    assert_eq!(
        engine.get_layout(root).unwrap(),
        &Layout { x: 0, y: 0, w: 100, h: 40 }
    );
    assert_eq!(
        engine.get_layout(left).unwrap(),
        &Layout { x: 0, y: 0, w: 50, h: 40 }
    );
    assert_eq!(
        engine.get_layout(right).unwrap(),
        &Layout { x: 50, y: 0, w: 50, h: 40 }
    );
}

#[test]
fn left_right_split_drops_the_remainder_column() {
    let mut engine = LayoutEngine::new();
    let (left, right, root) = two_pane_tree(&mut engine);
    engine.compute_layout(root, LayoutSize::new(101, 40)).unwrap();
    assert_eq!(
        engine.get_layout(left).unwrap(),
        &Layout { x: 0, y: 0, w: 50, h: 40 }
    );
    assert_eq!(
        engine.get_layout(right).unwrap(),
        &Layout { x: 50, y: 0, w: 50, h: 40 }
    );
}

#[test]
fn top_bottom_split_divides_height() {
    let mut engine = LayoutEngine::new();
    let top = engine.new_node(LayoutStyle::default(), Vec::new());
    let mid = engine.new_node(LayoutStyle::default(), Vec::new());
    let bottom = engine.new_node(LayoutStyle::default(), Vec::new());
    let root = engine.new_node(
        LayoutStyle { direction: Direction::TopBottom },
        vec![top, mid, bottom],
    );
    engine.compute_layout(root, LayoutSize::new(80, 25)).unwrap();
    assert_eq!(
        engine.get_layout(top).unwrap(),
        &Layout { x: 0, y: 0, w: 80, h: 8 }
    );
    assert_eq!(
        engine.get_layout(mid).unwrap(),
        &Layout { x: 0, y: 8, w: 80, h: 8 }
    );
    assert_eq!(
        engine.get_layout(bottom).unwrap(),
        &Layout { x: 0, y: 16, w: 80, h: 8 }
    );
}

#[test]
fn single_child_passes_the_rectangle_through() {
    // Three levels: a top-to-bottom root with one child, which splits
    // left-to-right into two leaves: pass-through, then a split.
    let mut engine = LayoutEngine::new();
    let leaf_a = engine.new_node(LayoutStyle::default(), Vec::new());
    let leaf_b = engine.new_node(LayoutStyle::default(), Vec::new());
    let mid = engine.new_node(
        LayoutStyle { direction: Direction::LeftRight },
        vec![leaf_a, leaf_b],
    );
    let root = engine.new_node(
        LayoutStyle { direction: Direction::TopBottom },
        vec![mid],
    );
    engine.compute_layout(root, LayoutSize::new(100, 40)).unwrap();
    assert_eq!(
        engine.get_layout(root).unwrap(),
        &Layout { x: 0, y: 0, w: 100, h: 40 }
    );
    assert_eq!(
        engine.get_layout(mid).unwrap(),
        &Layout { x: 0, y: 0, w: 100, h: 40 }
    );
    assert_eq!(
        engine.get_layout(leaf_a).unwrap(),
        &Layout { x: 0, y: 0, w: 50, h: 40 }
    );
    assert_eq!(
        engine.get_layout(leaf_b).unwrap(),
        &Layout { x: 50, y: 0, w: 50, h: 40 }
    );
}

#[test]
fn recomputing_overwrites_every_rectangle() {
    let mut engine = LayoutEngine::new();
    let (left, right, root) = two_pane_tree(&mut engine);
    engine.compute_layout(root, LayoutSize::new(100, 40)).unwrap();
    engine.compute_layout(root, LayoutSize::new(60, 21)).unwrap();
    assert_eq!(
        engine.get_layout(root).unwrap(),
        &Layout { x: 0, y: 0, w: 60, h: 21 }
    );
    assert_eq!(
        engine.get_layout(left).unwrap(),
        &Layout { x: 0, y: 0, w: 30, h: 21 }
    );
    assert_eq!(
        engine.get_layout(right).unwrap(),
        &Layout { x: 30, y: 0, w: 30, h: 21 }
    );
}

#[test]
fn unresolved_width_fails_and_leaves_no_rectangle() {
    let mut engine = LayoutEngine::new();
    let (left, right, root) = two_pane_tree(&mut engine);
    let res = engine.compute_layout(
        root,
        LayoutSize { width: None, height: Some(40) },
    );
    assert_eq!(res, Err(LayoutError::UnresolvedDimension));
    assert_eq!(engine.get_layout(root), Err(LayoutError::LayoutNotComputed));
    assert_eq!(engine.get_layout(left), Err(LayoutError::LayoutNotComputed));
    assert_eq!(engine.get_layout(right), Err(LayoutError::LayoutNotComputed));
}

#[test]
fn unresolved_height_fails_too() {
    let mut engine = LayoutEngine::new();
    let (_, _, root) = two_pane_tree(&mut engine);
    let res = engine.compute_layout(
        root,
        LayoutSize { width: Some(100), height: None },
    );
    assert_eq!(res, Err(LayoutError::UnresolvedDimension));
    assert_eq!(engine.get_layout(root), Err(LayoutError::LayoutNotComputed));
}

#[test]
fn layout_of_untouched_node_is_not_computed() {
    let mut engine = LayoutEngine::new();
    let lonely = engine.new_node(LayoutStyle::default(), Vec::new());
    let (_, _, root) = two_pane_tree(&mut engine);
    engine.compute_layout(root, LayoutSize::new(100, 40)).unwrap();
    assert_eq!(engine.get_layout(lonely), Err(LayoutError::LayoutNotComputed));
}

#[test]
fn default_style_splits_left_right() {
    let style = LayoutStyle::default();
    assert!(matches!(style.direction, Direction::LeftRight));
}

#[test]
fn get_node_exposes_the_stored_node() {
    let mut engine = LayoutEngine::new();
    let (left, _, root) = two_pane_tree(&mut engine);
    assert_eq!(engine.get_node(root).children, vec![left, left + 1]);
    assert!(engine.get_node(left).layout.is_none());
}

#[test]
fn resize_layout_builds_the_two_panes() {
    let mut engine = LayoutEngine::new();
    let (left, right) = resize_layout(&mut engine, 101, 41);
    assert_eq!(
        engine.get_layout(left).unwrap(),
        &Layout { x: 0, y: 0, w: 50, h: 40 }
    );
    assert_eq!(
        engine.get_layout(right).unwrap(),
        &Layout { x: 50, y: 0, w: 50, h: 40 }
    );
}

#[test]
fn resize_layout_builds_a_left_right_root_over_leaf_panes() {
    let mut engine = LayoutEngine::new();
    let (left, right) = resize_layout(&mut engine, 101, 41);
    let root = right + 1;
    assert_eq!(
        engine.get_layout(root).unwrap(),
        &Layout { x: 0, y: 0, w: 101, h: 40 }
    );
    let root_node = engine.get_node(root);
    assert!(matches!(root_node.style.direction, Direction::LeftRight));
    assert_eq!(root_node.children, vec![left, right]);
    assert!(engine.get_node(left).children.is_empty());
    assert!(engine.get_node(right).children.is_empty());
}

#[test]
fn five_children_share_the_floor_width() {
    let mut engine = LayoutEngine::new();
    let mut kids = Vec::new();
    for _ in 0..5 {
        kids.push(engine.new_node(LayoutStyle::default(), Vec::new()));
    }
    let root = engine.new_node(
        LayoutStyle { direction: Direction::LeftRight },
        kids.clone(),
    );
    engine.compute_layout(root, LayoutSize::new(23, 7)).unwrap();
    for (i, k) in kids.iter().enumerate() {
        assert_eq!(
            engine.get_layout(*k).unwrap(),
            &Layout { x: 4 * i as i32, y: 0, w: 4, h: 7 }
        );
    }
}
