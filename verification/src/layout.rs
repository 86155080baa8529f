//! Layout engine: a tree of nodes, stored in an arena, that partitions a
//! rectangular terminal region into child regions.
//!
//! Each node carries a direction, a list of child handles and an optional
//! computed rectangle.  A computation pass walks the tree depth-first,
//! assigning the given outer rectangle to the root and splitting each node's
//! rectangle equally among its children along the node's direction.  A node
//! with a single child passes its rectangle through unchanged; integer
//! division may leave trailing cells unassigned, and those cells are dropped
//! rather than handed to the last child.

use crate::arena::Arena;
use vstd::prelude::*;

verus! {

use vstd::arithmetic::div_mod::lemma_div_pos_is_pos;
use vstd::arithmetic::div_mod::lemma_fundamental_div_mod;
use vstd::arithmetic::div_mod::lemma_mod_bound;
use vstd::arithmetic::mul::lemma_mul_inequality;
use vstd::arithmetic::mul::lemma_mul_nonnegative;

/// Axis along which a node's children are placed.
#[derive(Clone, Copy, PartialEq, Eq, Structural, Debug)]
pub enum Direction {
    TopBottom,
    LeftRight,
}

/// Per-node style: currently only the split direction.
#[derive(Clone, Copy, PartialEq, Eq, Structural, Debug)]
pub struct LayoutStyle {
    pub direction: Direction,
}

impl Default for LayoutStyle {
    /// The default style splits left-to-right.
    fn default() -> (style: LayoutStyle)
        ensures
            style == (LayoutStyle { direction: Direction::LeftRight }),
    {
        LayoutStyle { direction: Direction::LeftRight }
    }
}

/// A computed rectangle in terminal cells: origin and extent.
#[derive(Clone, Copy, PartialEq, Eq, Structural, Debug)]
pub struct Layout {
    pub x: i32,
    pub y: i32,
    pub w: i32,
    pub h: i32,
}

/// Mathematical model of a rectangle, over unbounded integers.
pub ghost struct Rect {
    pub x: int,
    pub y: int,
    pub w: int,
    pub h: int,
}

impl View for Layout {
    type V = Rect;

    open spec fn view(&self) -> Rect {
        Rect { x: self.x as int, y: self.y as int, w: self.w as int, h: self.h as int }
    }
}

/// Handle of a node inside a [`LayoutEngine`]'s arena.
pub type NodeIndex = usize;

/// A tree node: style, ordered child handles, and the rectangle assigned by
/// the most recent computation pass (`None` until a pass visits the node).
pub struct Node {
    pub layout: Option<Layout>,
    pub style: LayoutStyle,
    pub children: Vec<NodeIndex>,
}

/// Mathematical model of a node's tree-structural part: the direction and
/// the child handles, with the computed rectangle left out.
pub ghost struct NodeShape {
    pub direction: Direction,
    pub children: Seq<int>,
}

/// The structural part of one node.
pub open spec fn shape_of(node: Node) -> NodeShape {
    NodeShape {
        direction: node.style.direction,
        children: node.children@.map_values(|c: NodeIndex| c as int),
    }
}

/// The structural part of a whole arena of nodes.
pub open spec fn shapes(nodes: Seq<Node>) -> Seq<NodeShape> {
    nodes.map_values(|node: Node| shape_of(node))
}

/// Every child handle points strictly below its parent, and no node has more
/// children than a split can count.  Handles come only from `insert`, and a
/// node's children exist before the node itself, so engine-built trees have
/// this shape; it also rules out cycles, which grounds the recursive walk.
pub open spec fn well_formed(sh: Seq<NodeShape>) -> bool {
    forall|i: int, j: int|
        0 <= i < sh.len() && 0 <= j < sh[i].children.len()
            ==> 0 <= #[trigger] sh[i].children[j] < i && sh[i].children.len() <= i32::MAX
}

/// Rectangle of child `i` among `n` children splitting `r` along `direction`:
/// an equal `floor` share of the split axis, offset by the index, the full
/// extent of the other axis.
pub open spec fn split_rect(direction: Direction, r: Rect, n: int, i: int) -> Rect {
    match direction {
        Direction::LeftRight => Rect { x: r.x + i * (r.w / n), y: r.y, w: r.w / n, h: r.h },
        Direction::TopBottom => Rect { x: r.x, y: r.y + i * (r.h / n), w: r.w, h: r.h / n },
    }
}

/// The rectangles a computation pass assigns in the subtree rooted at `idx`
/// when `idx` itself is assigned `r`: the map from visited node to its final
/// rectangle.  Children are visited in order and a later visit overwrites an
/// earlier one, which `union_prefer_right` mirrors.  Recursion is guarded on
/// child handles lying below their parent, as [`well_formed`] guarantees.
pub open spec fn subtree_rects(sh: Seq<NodeShape>, idx: int, r: Rect) -> Map<int, Rect>
    decreases idx, 1int, 0int,
{
    if !(0 <= idx < sh.len()) {
        Map::empty()
    } else {
        let base = Map::empty().insert(idx, r);
        let kids = sh[idx].children;
        if kids.len() == 0 {
            base
        } else if kids.len() == 1 {
            if 0 <= kids[0] < idx {
                base.union_prefer_right(subtree_rects(sh, kids[0], r))
            } else {
                base
            }
        } else {
            base.union_prefer_right(children_rects(sh, idx, r, kids.len() as int))
        }
    }
}

/// The rectangles assigned in the subtrees of the first `k` children of
/// `idx`, when `idx` has at least two children and is assigned `r`.
pub open spec fn children_rects(sh: Seq<NodeShape>, idx: int, r: Rect, k: int) -> Map<int, Rect>
    decreases idx, 0int, k,
{
    if !(0 <= idx < sh.len()) || k <= 0 {
        Map::empty()
    } else {
        let kids = sh[idx].children;
        let n = kids.len() as int;
        let prev = children_rects(sh, idx, r, k - 1);
        if k <= n && 0 <= kids[k - 1] < idx {
            prev.union_prefer_right(
                subtree_rects(sh, kids[k - 1], split_rect(sh[idx].direction, r, n, k - 1)),
            )
        } else {
            prev
        }
    }
}

/// Relation between the arena before and after a computation pass whose
/// assignments are `m`: every node in `m`'s domain now holds its mapped
/// rectangle, every other node is untouched, and no pass ever changes a
/// node's style or children.
pub open spec fn pass_result(pre: Seq<Node>, post: Seq<Node>, m: Map<int, Rect>) -> bool {
    &&& post.len() == pre.len()
    &&& forall|i: int|
        0 <= i < post.len() ==> (#[trigger] post[i]).style == pre[i].style && post[i].children
            == pre[i].children
    &&& forall|i: int|
        0 <= i < post.len() && m.dom().contains(i) ==> (#[trigger] post[i]).layout is Some
            && post[i].layout.unwrap()@ == m[i]
    &&& forall|i: int|
        0 <= i < post.len() && !m.dom().contains(i) ==> (#[trigger] post[i]).layout
            == pre[i].layout
}

/// Two passes in sequence act like one pass whose later assignments win.
proof fn lemma_pass_compose(s0: Seq<Node>, s1: Seq<Node>, s2: Seq<Node>, m1: Map<int, Rect>, m2: Map<
    int,
    Rect,
>)
    requires
        pass_result(s0, s1, m1),
        pass_result(s1, s2, m2),
    ensures
        pass_result(s0, s2, m1.union_prefer_right(m2)),
{
    let u = m1.union_prefer_right(m2);
    assert forall|i: int| 0 <= i < s2.len() && u.dom().contains(i) implies (#[trigger] s2[i]).layout is Some
        && s2[i].layout.unwrap()@ == u[i] by {
        if !m2.dom().contains(i) {
            assert(s2[i].layout == s1[i].layout);
        }
    }
}

/// A pass leaves the structural part of every node unchanged.
proof fn lemma_pass_shapes(pre: Seq<Node>, post: Seq<Node>, m: Map<int, Rect>)
    requires
        pass_result(pre, post, m),
    ensures
        shapes(post) == shapes(pre),
{
    assert forall|i: int| 0 <= i < post.len() implies shapes(post)[i] == shapes(pre)[i] by {
        assert(post[i].children == pre[i].children);
    }
    assert(shapes(post) =~= shapes(pre));
}

/// The slice of an axis extent `e` handed to each of `n` children stays
/// within the parent: `i` slices of `floor(e / n)` never exceed `e`.
proof fn lemma_split_extent_bounds(e: int, n: int, i: int)
    requires
        0 <= e,
        2 <= n,
        0 <= i <= n,
    ensures
        0 <= e / n,
        0 <= i * (e / n) <= e,
{
    let q = e / n;
    lemma_div_pos_is_pos(e, n);
    lemma_fundamental_div_mod(e, n);
    lemma_mod_bound(e, n);
    lemma_mul_inequality(i, n, q);
    lemma_mul_nonnegative(i, q);
}

/// Failures of the layout engine, surfaced to the caller as typed values.
#[derive(Clone, Copy, PartialEq, Eq, Structural, Debug)]
pub enum LayoutError {
    /// A split was requested but the dimension it divides was not carried
    /// down from an ancestor; the whole computation pass is abandoned.
    UnresolvedDimension,
    /// `get_layout` was called on a node that no successful computation pass
    /// has visited yet; recoverable by computing first.
    LayoutNotComputed,
}

/// Target outer size of a computation pass; either dimension may be absent,
/// in which case any split along it fails.
pub struct LayoutSize {
    pub width: Option<i32>,
    pub height: Option<i32>,
}

impl LayoutSize {
    /// A size with both dimensions resolved.
    pub fn new(w: i32, h: i32) -> (s: LayoutSize)
        ensures
            s.width == Some(w),
            s.height == Some(h),
    {
        LayoutSize { width: Some(w), height: Some(h) }
    }
}

/// Facade over the arena and the recursive algorithm: node creation,
/// rectangle retrieval, and the top-level computation entry point.
pub struct LayoutEngine {
    nodes: Arena<Node>,
}

impl View for LayoutEngine {
    type V = Seq<Node>;

    closed spec fn view(&self) -> Seq<Node> {
        self.nodes@
    }
}

impl LayoutEngine {
    /// Creates an engine with an empty arena.
    pub fn new() -> (engine: LayoutEngine)
        ensures
            engine@ == Seq::<Node>::empty(),
    {
        LayoutEngine { nodes: Arena::new() }
    }

    /// Inserts a node with the given style and children and no rectangle
    /// yet.  Children must be handles this engine handed out earlier, so
    /// they lie below the fresh handle and the arena stays [`well_formed`].
    pub fn new_node(&mut self, style: LayoutStyle, children: Vec<NodeIndex>) -> (handle:
        NodeIndex)
        requires
            forall|j: int|
                0 <= j < children@.len() ==> (#[trigger] children@[j]) < old(self)@.len(),
            children@.len() <= i32::MAX,
        ensures
            handle == old(self)@.len(),
            final(self)@ == old(self)@.push(
                Node { layout: None, style, children },
            ),
            well_formed(shapes(old(self)@)) ==> well_formed(shapes(final(self)@)),
    {
        let ghost pre = self@;
        let handle = self.nodes.insert(Node { layout: None, style, children });
        proof {
            let post = shapes(self@);
            if well_formed(shapes(pre)) {
                assert forall|i: int, j: int|
                    0 <= i < post.len() && 0 <= j < post[i].children.len() implies 0 <= #[trigger] post[i].children[j]
                    < i && post[i].children.len() <= i32::MAX by {
                    if i < pre.len() {
                        assert(shapes(pre)[i] == post[i]);
                    }
                }
            }
        }
        handle
    }

    /// Exclusive access to a node, for callers that adjust style or children
    /// before the next computation pass.  Mutation can break
    /// [`well_formed`], which `compute_layout` requires afresh.
    pub fn get_node(&mut self, node_index: NodeIndex) -> (node: &mut Node)
        requires
            node_index < old(self)@.len(),
        ensures
            *node == old(self)@[node_index as int],
            final(self)@ == old(self)@.update(node_index as int, *final(node)),
    {
        self.nodes.get_mut(node_index)
    }

    /// Runs a computation pass over the subtree rooted at `node_index`,
    /// assigning the root the rectangle at origin `(0, 0)` with the given
    /// outer size and splitting space downwards per node direction.
    ///
    /// Succeeds exactly when both dimensions of `s` are resolved; the final
    /// rectangles are then `subtree_rects` of the tree's shape, and nodes
    /// outside the subtree keep their rectangles.  On failure the engine is
    /// left exactly as it was.
    pub fn compute_layout(&mut self, node_index: NodeIndex, s: LayoutSize) -> (res: Result<
        (),
        LayoutError,
    >)
        requires
            well_formed(shapes(old(self)@)),
            node_index < old(self)@.len(),
            s.width is Some ==> 0 <= s.width.unwrap(),
            s.height is Some ==> 0 <= s.height.unwrap(),
        ensures
            res is Ok <==> (s.width is Some && s.height is Some),
            res matches Err(e) ==> e == LayoutError::UnresolvedDimension && final(self)@ == old(
                self,
            )@,
            res is Ok ==> pass_result(
                old(self)@,
                final(self)@,
                subtree_rects(
                    shapes(old(self)@),
                    node_index as int,
                    Rect { x: 0, y: 0, w: s.width.unwrap() as int, h: s.height.unwrap() as int },
                ),
            ),
    {
        self.compute_layout_helper(0, 0, node_index, s)
    }

    /// Recursive step of a computation pass: assigns `node_index` the
    /// rectangle `(x, y, s)` and distributes it among the node's children.
    fn compute_layout_helper(&mut self, x: i32, y: i32, node_index: NodeIndex, s: LayoutSize)
        -> (res: Result<(), LayoutError>)
        requires
            well_formed(shapes(old(self)@)),
            node_index < old(self)@.len(),
            0 <= x,
            0 <= y,
            s.width is Some ==> 0 <= s.width.unwrap() && x + s.width.unwrap() <= i32::MAX,
            s.height is Some ==> 0 <= s.height.unwrap() && y + s.height.unwrap() <= i32::MAX,
        ensures
            res is Ok <==> (s.width is Some && s.height is Some),
            res matches Err(e) ==> e == LayoutError::UnresolvedDimension && final(self)@ == old(
                self,
            )@,
            res is Ok ==> pass_result(
                old(self)@,
                final(self)@,
                subtree_rects(
                    shapes(old(self)@),
                    node_index as int,
                    Rect {
                        x: x as int,
                        y: y as int,
                        w: s.width.unwrap() as int,
                        h: s.height.unwrap() as int,
                    },
                ),
            ),
        decreases node_index,
    {
        let w = match s.width {
            Some(v) => v,
            None => { return Err(LayoutError::UnresolvedDimension) },
        };
        let h = match s.height {
            Some(v) => v,
            None => { return Err(LayoutError::UnresolvedDimension) },
        };
        let ghost pre = self@;
        let ghost sh = shapes(pre);
        let ghost ni = node_index as int;
        let ghost r0 = Rect { x: x as int, y: y as int, w: w as int, h: h as int };
        let ghost m_base = Map::<int, Rect>::empty().insert(ni, r0);

        let node = self.nodes.get_mut(node_index);
        node.layout = Some(Layout { x, y, w, h });
        proof {
            assert(pass_result(pre, self@, m_base));
            lemma_pass_shapes(pre, self@, m_base);
        }

        let num_children = self.nodes.get(node_index).children.len();
        proof {
            assert(sh[ni].children =~= self@[ni].children@.map_values(|c: NodeIndex| c as int));
        }
        if num_children == 0 {
            proof {
                assert(subtree_rects(sh, ni, r0) == m_base);
            }
            return Ok(());
        }

        if num_children == 1 {
            let c: usize = self.nodes.get(node_index).children[0];
            proof {
                assert(sh[ni].children[0] == c as int);
                assert(0 <= sh[ni].children[0] < ni);
            }
            let ghost mid = self@;
            let res = self.compute_layout_helper(x, y, c, LayoutSize {
                width: Some(w),
                height: Some(h),
            });
            match res {
                Ok(()) => {
                    proof {
                        let m_c = subtree_rects(sh, c as int, r0);
                        lemma_pass_compose(pre, mid, self@, m_base, m_c);
                        assert(subtree_rects(sh, ni, r0) == m_base.union_prefer_right(m_c));
                    }
                    Ok(())
                },
                Err(e) => {
                    proof {
                        assert(false);
                    }
                    Err(e)
                },
            }
        } else {
            let direction = self.nodes.get(node_index).style.direction;
            proof {
                assert(sh[ni].children[0] == self@[ni].children@[0] as int);
                assert(0 <= sh[ni].children[0] < ni);
                assert(sh[ni].children.len() <= i32::MAX);
            }
            let n32: i32 = num_children as i32;
            let child_extent: i32 = match direction {
                Direction::LeftRight => w / n32,
                Direction::TopBottom => h / n32,
            };
            proof {
                lemma_split_extent_bounds(w as int, num_children as int, 0);
                lemma_split_extent_bounds(h as int, num_children as int, 0);
            }
            let ghost nn = num_children as int;
            let mut i: usize = 0;
            proof {
                assert(children_rects(sh, ni, r0, 0) == Map::<int, Rect>::empty());
                assert(m_base.union_prefer_right(children_rects(sh, ni, r0, 0)) =~= m_base);
            }
            while i < num_children
                invariant
                    i <= num_children,
                    2 <= num_children <= i32::MAX,
                    well_formed(sh),
                    ni == node_index as int,
                    0 <= ni < pre.len(),
                    pre.len() == self@.len(),
                    sh == shapes(pre),
                    shapes(self@) == sh,
                    nn == num_children as int,
                    sh[ni].children.len() == nn,
                    sh[ni].direction == direction,
                    n32 as int == nn,
                    r0 == (Rect { x: x as int, y: y as int, w: w as int, h: h as int }),
                    0 <= x,
                    0 <= y,
                    0 <= w,
                    0 <= h,
                    x + w <= i32::MAX,
                    y + h <= i32::MAX,
                    (match direction {
                        Direction::LeftRight => child_extent as int == r0.w / nn,
                        Direction::TopBottom => child_extent as int == r0.h / nn,
                    }),
                    m_base == Map::<int, Rect>::empty().insert(ni, r0),
                    pass_result(
                        pre,
                        self@,
                        m_base.union_prefer_right(children_rects(sh, ni, r0, i as int)),
                    ),
                decreases num_children - i,
            {
                let c: usize = self.nodes.get(node_index).children[i];
                proof {
                    assert(self@[ni].children == pre[ni].children);
                    assert(sh[ni].children[i as int] == c as int);
                    assert(0 <= sh[ni].children[i as int] < ni);
                    lemma_split_extent_bounds(w as int, nn, i as int);
                    lemma_split_extent_bounds(w as int, nn, i as int + 1);
                    lemma_split_extent_bounds(h as int, nn, i as int);
                    lemma_split_extent_bounds(h as int, nn, i as int + 1);
                    assert((i as int + 1) * (r0.w / nn) == i as int * (r0.w / nn) + r0.w / nn)
                        by (nonlinear_arith);
                    assert((i as int + 1) * (r0.h / nn) == i as int * (r0.h / nn) + r0.h / nn)
                        by (nonlinear_arith);
                }
                let (cx, cy, cs): (i32, i32, LayoutSize) = match direction {
                    Direction::LeftRight => (
                        x + (i as i32) * child_extent,
                        y,
                        LayoutSize { width: Some(child_extent), height: Some(h) },
                    ),
                    Direction::TopBottom => (
                        x,
                        y + (i as i32) * child_extent,
                        LayoutSize { width: Some(w), height: Some(child_extent) },
                    ),
                };
                let ghost rc = split_rect(direction, r0, nn, i as int);
                proof {
                    assert(cx as int == rc.x && cy as int == rc.y);
                    assert(cs.width.unwrap() as int == rc.w && cs.height.unwrap() as int == rc.h);
                    assert(cx + cs.width.unwrap() <= i32::MAX);
                    assert(cy + cs.height.unwrap() <= i32::MAX);
                }
                let ghost mid = self@;
                let res = self.compute_layout_helper(cx, cy, c, cs);
                match res {
                    Ok(()) => {},
                    Err(e) => {
                        proof {
                            assert(false);
                        }
                        return Err(e);
                    },
                }
                proof {
                    let m_c = subtree_rects(sh, c as int, rc);
                    let p_i = m_base.union_prefer_right(children_rects(sh, ni, r0, i as int));
                    lemma_pass_compose(pre, mid, self@, p_i, m_c);
                    lemma_pass_shapes(mid, self@, m_c);
                    assert(children_rects(sh, ni, r0, i as int + 1) == children_rects(
                        sh,
                        ni,
                        r0,
                        i as int,
                    ).union_prefer_right(m_c));
                    assert(p_i.union_prefer_right(m_c) =~= m_base.union_prefer_right(
                        children_rects(sh, ni, r0, i as int + 1),
                    ));
                }
                i += 1;
            }
            proof {
                assert(subtree_rects(sh, ni, r0) == m_base.union_prefer_right(
                    children_rects(sh, ni, r0, nn),
                ));
            }
            Ok(())
        }
    }

    /// The rectangle the most recent computation pass assigned to
    /// `node_index`, or `LayoutNotComputed` if no pass has visited it.
    pub fn get_layout(&self, node_index: NodeIndex) -> (res: Result<&Layout, LayoutError>)
        requires
            node_index < self@.len(),
        ensures
            match res {
                Ok(l) => self@[node_index as int].layout == Some(*l),
                Err(e) => self@[node_index as int].layout is None
                    && e == LayoutError::LayoutNotComputed,
            },
    {
        match &self.nodes.get(node_index).layout {
            Some(l) => Ok(l),
            None => Err(LayoutError::LayoutNotComputed),
        }
    }
}

/// Splits the terminal into the browser's two panes: two fresh leaf nodes
/// under a fresh left-to-right root, computed for a `w` by `h - 1` cell
/// region (the last row is left to the status bar).  Returns the two pane
/// handles; the root holds the whole region, and each pane half its width,
/// side by side.
pub fn resize_layout(main_layout: &mut LayoutEngine, w: u16, h: u16) -> (panes: (
    NodeIndex,
    NodeIndex,
))
    requires
        well_formed(shapes(old(main_layout)@)),
        1 <= h,
    ensures
        final(main_layout)@.len() == old(main_layout)@.len() + 3,
        well_formed(shapes(final(main_layout)@)),
        panes.0 == old(main_layout)@.len(),
        panes.1 == old(main_layout)@.len() + 1,
        final(main_layout)@[panes.0 as int].children@.len() == 0,
        final(main_layout)@[panes.0 as int].layout is Some,
        final(main_layout)@[panes.0 as int].layout.unwrap()@ == (Rect {
            x: 0,
            y: 0,
            w: w as int / 2,
            h: h as int - 1,
        }),
        final(main_layout)@[panes.1 as int].children@.len() == 0,
        final(main_layout)@[panes.1 as int].layout is Some,
        final(main_layout)@[panes.1 as int].layout.unwrap()@ == (Rect {
            x: w as int / 2,
            y: 0,
            w: w as int / 2,
            h: h as int - 1,
        }),
        final(main_layout)@[old(main_layout)@.len() as int + 2].style == (LayoutStyle {
            direction: Direction::LeftRight,
        }),
        final(main_layout)@[old(main_layout)@.len() as int + 2].children@ == seq![panes.0, panes.1],
        final(main_layout)@[old(main_layout)@.len() as int + 2].layout is Some,
        final(main_layout)@[old(main_layout)@.len() as int + 2].layout.unwrap()@ == (Rect {
            x: 0,
            y: 0,
            w: w as int,
            h: h as int - 1,
        }),
{
    let left_idx = main_layout.new_node(LayoutStyle::default(), Vec::new());
    let right_idx = main_layout.new_node(LayoutStyle::default(), Vec::new());
    let mut kids: Vec<NodeIndex> = Vec::new();
    kids.push(left_idx);
    kids.push(right_idx);
    let root = main_layout.new_node(LayoutStyle { direction: Direction::LeftRight }, kids);

    let ghost pre = main_layout@;
    let ghost sh = shapes(pre);
    let ghost li = left_idx as int;
    let ghost ri = right_idx as int;
    let ghost rt = root as int;
    let res = main_layout.compute_layout(root, LayoutSize::new(w as i32, h as i32 - 1));
    match res {
        Ok(()) => {},
        Err(_) => {
            proof {
                assert(false);
            }
        },
    }
    proof {
        let r = Rect { x: 0, y: 0, w: w as int, h: h as int - 1 };
        let rc0 = split_rect(Direction::LeftRight, r, 2, 0);
        let rc1 = split_rect(Direction::LeftRight, r, 2, 1);
        assert(sh[rt].children =~= seq![li, ri]);
        assert(sh[li].children.len() == 0 && sh[ri].children.len() == 0);
        assert(subtree_rects(sh, li, rc0) == Map::<int, Rect>::empty().insert(li, rc0));
        assert(subtree_rects(sh, ri, rc1) == Map::<int, Rect>::empty().insert(ri, rc1));
        assert(children_rects(sh, rt, r, 0) == Map::<int, Rect>::empty());
        let cm1 = children_rects(sh, rt, r, 1);
        let cm2 = children_rects(sh, rt, r, 2);
        let m = subtree_rects(sh, rt, r);
        assert(cm1 == children_rects(sh, rt, r, 0).union_prefer_right(subtree_rects(sh, li, rc0)));
        assert(cm2 == cm1.union_prefer_right(subtree_rects(sh, ri, rc1)));
        assert(m == Map::<int, Rect>::empty().insert(rt, r).union_prefer_right(cm2));
        assert(m.dom().contains(li) && m[li] == rc0);
        assert(m.dom().contains(ri) && m[ri] == rc1);
        assert(m.dom().contains(rt) && m[rt] == r);
        lemma_pass_shapes(pre, main_layout@, m);
        assert(rc0 == (Rect { x: 0, y: 0, w: w as int / 2, h: h as int - 1 }));
        assert(rc1 == (Rect { x: w as int / 2, y: 0, w: w as int / 2, h: h as int - 1 }));
        assert(main_layout@[rt].children == pre[rt].children);
        assert(main_layout@[rt].children@ =~= seq![left_idx, right_idx]);
        assert(main_layout@[li].children@.len() == 0 && main_layout@[ri].children@.len() == 0);
    }
    (left_idx, right_idx)
}

} // verus!
