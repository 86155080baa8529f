//! Laws of the layout computation: what the rectangle map of a computation
//! pass looks like, node by node, for tree-shaped arenas.

use crate::layout::{children_rects, pass_result, shapes, split_rect, subtree_rects,
    well_formed, Node, NodeShape, Rect};
use vstd::prelude::*;

verus! {

/// A well-formed arena whose parent-child edges never share a target: each
/// handle appears at most once in all child lists together, so the nodes
/// form a forest rather than a shared or cyclic graph.
pub open spec fn tree_shaped(sh: Seq<NodeShape>) -> bool {
    &&& well_formed(sh)
    &&& forall|i1: int, j1: int, i2: int, j2: int|
        0 <= i1 < sh.len() && 0 <= j1 < sh[i1].children.len() && 0 <= i2 < sh.len() && 0 <= j2
            < sh[i2].children.len() && !(i1 == i2 && j1 == j2) ==> #[trigger] sh[i1].children[j1]
            != #[trigger] sh[i2].children[j2]
}

/// `t` lies in the subtree rooted at `a`: it is `a` itself or reachable
/// through child edges.  Recursion is guarded exactly as in
/// [`subtree_rects`].
pub open spec fn reaches(sh: Seq<NodeShape>, a: int, t: int) -> bool
    decreases a, 1int, 0int,
{
    0 <= a < sh.len() && (a == t || kids_reach(sh, a, t, sh[a].children.len() as int))
}

/// `t` is reachable from one of the first `k` children of `a`.
pub open spec fn kids_reach(sh: Seq<NodeShape>, a: int, t: int, k: int) -> bool
    decreases a, 0int, k,
{
    if !(0 <= a < sh.len()) || k <= 0 {
        false
    } else {
        let c = sh[a].children[k - 1];
        (k <= sh[a].children.len() && 0 <= c < a && reaches(sh, c, t)) || kids_reach(
            sh,
            a,
            t,
            k - 1,
        )
    }
}

/// Reachability through child `j` witnesses `kids_reach`.
proof fn lemma_kids_reach_intro(sh: Seq<NodeShape>, a: int, t: int, k: int, j: int)
    requires
        0 <= a < sh.len(),
        0 <= j < k,
        j < sh[a].children.len(),
        0 <= sh[a].children[j] < a,
        reaches(sh, sh[a].children[j], t),
    ensures
        kids_reach(sh, a, t, k),
    decreases k,
{
    if j < k - 1 {
        lemma_kids_reach_intro(sh, a, t, k - 1, j);
    }
}

/// `kids_reach` yields a child that reaches `t`.
proof fn lemma_kids_reach_elim(sh: Seq<NodeShape>, a: int, t: int, k: int)
    requires
        kids_reach(sh, a, t, k),
    ensures
        exists|j: int|
            0 <= j < k && j < sh[a].children.len() && 0 <= #[trigger] sh[a].children[j] < a
                && reaches(sh, sh[a].children[j], t),
    decreases k,
{
    let c = sh[a].children[k - 1];
    if k <= sh[a].children.len() && 0 <= c < a && reaches(sh, c, t) {
        assert(0 <= k - 1 < k && k - 1 < sh[a].children.len() && 0 <= sh[a].children[k - 1] < a
            && reaches(sh, sh[a].children[k - 1], t));
    } else {
        lemma_kids_reach_elim(sh, a, t, k - 1);
    }
}

/// Every child of a node lies in its subtree.
proof fn lemma_reaches_child(sh: Seq<NodeShape>, a: int, j: int)
    requires
        well_formed(sh),
        0 <= a < sh.len(),
        0 <= j < sh[a].children.len(),
    ensures
        reaches(sh, a, sh[a].children[j]),
{
    let c = sh[a].children[j];
    assert(0 <= c < a);
    assert(reaches(sh, c, c));
    lemma_kids_reach_intro(sh, a, c, sh[a].children.len() as int, j);
}

/// Reachable handles never exceed the root of the walk.
proof fn lemma_reaches_le(sh: Seq<NodeShape>, a: int, t: int)
    requires
        well_formed(sh),
        reaches(sh, a, t),
    ensures
        0 <= t <= a,
    decreases a,
{
    if a != t {
        lemma_kids_reach_elim(sh, a, t, sh[a].children.len() as int);
        let j = choose|j: int|
            0 <= j < sh[a].children.len() && 0 <= #[trigger] sh[a].children[j] < a && reaches(
                sh,
                sh[a].children[j],
                t,
            );
        lemma_reaches_le(sh, sh[a].children[j], t);
    }
}

/// Reachability is transitive.
proof fn lemma_reaches_trans(sh: Seq<NodeShape>, a: int, b: int, t: int)
    requires
        well_formed(sh),
        reaches(sh, a, b),
        reaches(sh, b, t),
    ensures
        reaches(sh, a, t),
    decreases a,
{
    if a != b {
        lemma_kids_reach_elim(sh, a, b, sh[a].children.len() as int);
        let j = choose|j: int|
            0 <= j < sh[a].children.len() && 0 <= #[trigger] sh[a].children[j] < a && reaches(
                sh,
                sh[a].children[j],
                b,
            );
        lemma_reaches_trans(sh, sh[a].children[j], b, t);
        lemma_kids_reach_intro(sh, a, t, sh[a].children.len() as int, j);
    }
}

/// A strictly reachable handle is entered through some last child edge from
/// a node that the walk also reaches.
proof fn lemma_last_edge(sh: Seq<NodeShape>, a: int, t: int)
    requires
        well_formed(sh),
        reaches(sh, a, t),
        a != t,
    ensures
        exists|v: int, j: int|
            reaches(sh, a, v) && 0 <= j < sh[v].children.len() && #[trigger] sh[v].children[j]
                == t,
    decreases a,
{
    lemma_kids_reach_elim(sh, a, t, sh[a].children.len() as int);
    let j0 = choose|j: int|
        0 <= j < sh[a].children.len() && 0 <= #[trigger] sh[a].children[j] < a && reaches(
            sh,
            sh[a].children[j],
            t,
        );
    let c = sh[a].children[j0];
    if c == t {
        assert(reaches(sh, a, a));
        assert(reaches(sh, a, a) && 0 <= j0 < sh[a].children.len() && sh[a].children[j0] == t);
    } else {
        lemma_last_edge(sh, c, t);
        let (v, j) = choose|v: int, j: int|
            reaches(sh, c, v) && 0 <= j < sh[v].children.len() && #[trigger] sh[v].children[j]
                == t;
        lemma_reaches_child(sh, a, j0);
        lemma_reaches_trans(sh, a, c, v);
        assert(reaches(sh, a, v) && 0 <= j < sh[v].children.len() && sh[v].children[j] == t);
    }
}

/// In a tree-shaped arena, one child of a node never reaches another.
proof fn lemma_sibling_not_reaches(sh: Seq<NodeShape>, p: int, ja: int, jb: int)
    requires
        tree_shaped(sh),
        0 <= p < sh.len(),
        0 <= ja < sh[p].children.len(),
        0 <= jb < sh[p].children.len(),
        ja != jb,
    ensures
        !reaches(sh, sh[p].children[ja], sh[p].children[jb]),
{
    let a = sh[p].children[ja];
    let b = sh[p].children[jb];
    assert(a != b);
    if reaches(sh, a, b) {
        lemma_last_edge(sh, a, b);
        let (v, j) = choose|v: int, j: int|
            reaches(sh, a, v) && 0 <= j < sh[v].children.len() && #[trigger] sh[v].children[j]
                == b;
        lemma_reaches_le(sh, a, v);
        if !(v == p && j == jb) {
            assert(sh[v].children[j] != sh[p].children[jb]);
        }
        assert(v == p);
        lemma_reaches_le(sh, a, p);
        assert(a < p);
    }
}

/// In a tree-shaped arena, subtrees whose roots do not contain each other
/// share no node at all.
proof fn lemma_reaches_disjoint(sh: Seq<NodeShape>, a: int, b: int, t: int)
    requires
        tree_shaped(sh),
        reaches(sh, a, t),
        !reaches(sh, a, b),
        !reaches(sh, b, a),
    ensures
        !reaches(sh, b, t),
    decreases a + b,
{
    if reaches(sh, b, t) {
        assert(a != b);
        assert(a != t) by {
            if a == t {
                assert(reaches(sh, b, a));
            }
        }
        assert(b != t) by {
            if b == t {
                assert(reaches(sh, a, b));
            }
        }
        lemma_kids_reach_elim(sh, a, t, sh[a].children.len() as int);
        let ja = choose|j: int|
            0 <= j < sh[a].children.len() && 0 <= #[trigger] sh[a].children[j] < a && reaches(
                sh,
                sh[a].children[j],
                t,
            );
        lemma_kids_reach_elim(sh, b, t, sh[b].children.len() as int);
        let jb = choose|j: int|
            0 <= j < sh[b].children.len() && 0 <= #[trigger] sh[b].children[j] < b && reaches(
                sh,
                sh[b].children[j],
                t,
            );
        let a1 = sh[a].children[ja];
        let b1 = sh[b].children[jb];
        lemma_reaches_child(sh, a, ja);
        lemma_reaches_child(sh, b, jb);
        if a1 == b {
            assert(reaches(sh, a, b));
        } else if b1 == a {
            assert(reaches(sh, b, a));
        } else if a1 == b1 {
            assert(sh[a].children[ja] != sh[b].children[jb]);
        } else {
            assert(!reaches(sh, a1, b1)) by {
                if reaches(sh, a1, b1) {
                    lemma_reaches_trans(sh, a, a1, b1);
                    lemma_last_edge(sh, a, b1);
                    let (v, j) = choose|v: int, j: int|
                        reaches(sh, a, v) && 0 <= j < sh[v].children.len()
                            && #[trigger] sh[v].children[j] == b1;
                    lemma_reaches_le(sh, a, v);
                    if !(v == b && j == jb) {
                        assert(sh[v].children[j] != sh[b].children[jb]);
                    }
                    assert(reaches(sh, a, b));
                }
            }
            assert(!reaches(sh, b1, a1)) by {
                if reaches(sh, b1, a1) {
                    lemma_reaches_trans(sh, b, b1, a1);
                    lemma_last_edge(sh, b, a1);
                    let (v, j) = choose|v: int, j: int|
                        reaches(sh, b, v) && 0 <= j < sh[v].children.len()
                            && #[trigger] sh[v].children[j] == a1;
                    lemma_reaches_le(sh, b, v);
                    if !(v == a && j == ja) {
                        assert(sh[v].children[j] != sh[a].children[ja]);
                    }
                    assert(reaches(sh, b, a));
                }
            }
            lemma_reaches_disjoint(sh, a1, b1, t);
        }
    }
}

/// Every handle a pass assigns a rectangle lies in the subtree of its root.
pub proof fn lemma_subtree_rects_dom(sh: Seq<NodeShape>, idx: int, r: Rect)
    ensures
        forall|t: int|
            #[trigger] subtree_rects(sh, idx, r).dom().contains(t) ==> reaches(sh, idx, t),
    decreases idx, 1int, 0int,
{
    if 0 <= idx < sh.len() {
        let kids = sh[idx].children;
        let n = kids.len() as int;
        if n == 1 && 0 <= kids[0] < idx {
            lemma_subtree_rects_dom(sh, kids[0], r);
            assert forall|t: int| #[trigger] subtree_rects(sh, idx, r).dom().contains(t) implies
                reaches(sh, idx, t) by {
                if t != idx && subtree_rects(sh, kids[0], r).dom().contains(t) {
                    lemma_kids_reach_intro(sh, idx, t, n, 0);
                }
            }
        } else if n >= 2 {
            lemma_children_rects_dom(sh, idx, r, n);
            assert forall|t: int| #[trigger] subtree_rects(sh, idx, r).dom().contains(t) implies
                reaches(sh, idx, t) by {
                if t != idx {
                    assert(children_rects(sh, idx, r, n).dom().contains(t));
                }
            }
        }
    }
}

/// Every handle the first `k` child walks assign lies in one of those
/// children's subtrees.
proof fn lemma_children_rects_dom(sh: Seq<NodeShape>, idx: int, r: Rect, k: int)
    ensures
        forall|t: int|
            #[trigger] children_rects(sh, idx, r, k).dom().contains(t) ==> kids_reach(
                sh,
                idx,
                t,
                k,
            ),
    decreases idx, 0int, k,
{
    if 0 <= idx < sh.len() && k > 0 {
        let kids = sh[idx].children;
        let n = kids.len() as int;
        lemma_children_rects_dom(sh, idx, r, k - 1);
        if k <= n && 0 <= kids[k - 1] < idx {
            lemma_subtree_rects_dom(sh, kids[k - 1], split_rect(sh[idx].direction, r, n, k - 1));
        }
        assert forall|t: int| #[trigger] children_rects(sh, idx, r, k).dom().contains(t) implies
            kids_reach(sh, idx, t, k) by {
            if children_rects(sh, idx, r, k - 1).dom().contains(t) {
                assert(kids_reach(sh, idx, t, k - 1));
            } else {
                assert(k <= n && 0 <= kids[k - 1] < idx);
                assert(subtree_rects(sh, kids[k - 1], split_rect(sh[idx].direction, r, n, k - 1))
                    .dom().contains(t));
                assert(reaches(sh, kids[k - 1], t));
            }
        }
    }
}

/// A pass assigns the root of its walk exactly the rectangle handed in;
/// no child walk touches the root, whose handle lies above all of theirs.
pub proof fn lemma_root_rect(sh: Seq<NodeShape>, idx: int, r: Rect)
    requires
        well_formed(sh),
        0 <= idx < sh.len(),
    ensures
        subtree_rects(sh, idx, r).dom().contains(idx),
        subtree_rects(sh, idx, r)[idx] == r,
{
    let kids = sh[idx].children;
    let n = kids.len() as int;
    if n == 1 {
        assert(0 <= kids[0] < idx);
        let mc = subtree_rects(sh, kids[0], r);
        if mc.dom().contains(idx) {
            lemma_subtree_rects_dom(sh, kids[0], r);
            lemma_reaches_le(sh, kids[0], idx);
        }
    } else if n >= 2 {
        let cm = children_rects(sh, idx, r, n);
        if cm.dom().contains(idx) {
            lemma_children_rects_dom(sh, idx, r, n);
            lemma_kids_reach_elim(sh, idx, idx, n);
            let j = choose|j: int|
                0 <= j < n && j < kids.len() && 0 <= #[trigger] kids[j] < idx && reaches(
                    sh,
                    kids[j],
                    idx,
                );
            lemma_reaches_le(sh, kids[j], idx);
        }
    }
}

/// The layout rules, read off the rectangle map `m` at one node `q`: a
/// single child holds its parent's rectangle unchanged, and each of two or
/// more children holds its equal `floor` share, offset by its position.
pub open spec fn assigned_per_rules(sh: Seq<NodeShape>, m: Map<int, Rect>, q: int) -> bool {
    let kids = sh[q].children;
    let n = kids.len() as int;
    &&& (n == 1 ==> m.dom().contains(kids[0]) && m[kids[0]] == m[q])
    &&& (n >= 2 ==> forall|j: int|
        0 <= j < n ==> m.dom().contains(#[trigger] kids[j]) && m[kids[j]] == split_rect(
            sh[q].direction,
            m[q],
            n,
            j,
        ))
}

/// The rectangles of a computation pass over a tree obey the layout rules
/// at every node they cover: a single child's rectangle equals its
/// parent's, and each child of a wider node gets the equal split of its
/// parent's rectangle along the parent's direction.
pub proof fn lemma_subtree_rects_per_rules(sh: Seq<NodeShape>, idx: int, r: Rect)
    requires
        tree_shaped(sh),
        0 <= idx < sh.len(),
    ensures
        forall|q: int|
            #[trigger] subtree_rects(sh, idx, r).dom().contains(q) ==> assigned_per_rules(
                sh,
                subtree_rects(sh, idx, r),
                q,
            ),
    decreases idx, 1int, 0int,
{
    let m = subtree_rects(sh, idx, r);
    let kids = sh[idx].children;
    let n = kids.len() as int;
    lemma_root_rect(sh, idx, r);
    if n == 1 {
        assert(0 <= kids[0] < idx);
        let mc = subtree_rects(sh, kids[0], r);
        lemma_subtree_rects_per_rules(sh, kids[0], r);
        lemma_subtree_rects_dom(sh, kids[0], r);
        lemma_root_rect(sh, kids[0], r);
        assert forall|t: int| #[trigger] mc.dom().contains(t) implies m.dom().contains(t) && m[t]
            == mc[t] && t < idx by {
            lemma_reaches_le(sh, kids[0], t);
        }
        assert forall|q: int| #[trigger] m.dom().contains(q) implies assigned_per_rules(
            sh,
            m,
            q,
        ) by {
            if q == idx {
                assert(m[kids[0]] == mc[kids[0]]);
            } else {
                assert(mc.dom().contains(q));
                assert(assigned_per_rules(sh, mc, q));
                let qk = sh[q].children;
                let qn = qk.len() as int;
                if qn >= 2 {
                    assert forall|j: int| 0 <= j < qn implies m.dom().contains(
                        #[trigger] qk[j],
                    ) && m[qk[j]] == split_rect(sh[q].direction, m[q], qn, j) by {
                        assert(mc.dom().contains(qk[j]));
                    }
                }
            }
        }
    } else if n >= 2 {
        let cm = children_rects(sh, idx, r, n);
        lemma_children_rects_per_rules(sh, idx, r, n);
        lemma_children_rects_dom(sh, idx, r, n);
        assert forall|t: int| #[trigger] cm.dom().contains(t) implies m.dom().contains(t) && m[t]
            == cm[t] && t < idx by {
            lemma_kids_reach_elim(sh, idx, t, n);
            let j = choose|j: int|
                0 <= j < n && j < kids.len() && 0 <= #[trigger] kids[j] < idx && reaches(
                    sh,
                    kids[j],
                    t,
                );
            lemma_reaches_le(sh, kids[j], t);
        }
        assert forall|q: int| #[trigger] m.dom().contains(q) implies assigned_per_rules(
            sh,
            m,
            q,
        ) by {
            if q == idx {
                assert forall|j: int| 0 <= j < n implies m.dom().contains(#[trigger] kids[j])
                    && m[kids[j]] == split_rect(sh[idx].direction, m[idx], n, j) by {
                    assert(cm.dom().contains(kids[j]));
                }
            } else {
                assert(cm.dom().contains(q));
                assert(assigned_per_rules(sh, cm, q));
                let qk = sh[q].children;
                let qn = qk.len() as int;
                if qn >= 2 {
                    assert forall|j: int| 0 <= j < qn implies m.dom().contains(
                        #[trigger] qk[j],
                    ) && m[qk[j]] == split_rect(sh[q].direction, m[q], qn, j) by {
                        assert(cm.dom().contains(qk[j]));
                    }
                }
            }
        }
    }
}

/// Every rectangle a pass assigns keeps non-negative extents, given a
/// non-negative outer size: an equal `floor` share of a non-negative
/// extent stays non-negative.
pub proof fn lemma_subtree_rects_nonneg(sh: Seq<NodeShape>, idx: int, r: Rect)
    requires
        0 <= r.w,
        0 <= r.h,
    ensures
        forall|t: int|
            #[trigger] subtree_rects(sh, idx, r).dom().contains(t) ==> 0 <= subtree_rects(
                sh,
                idx,
                r,
            )[t].w && 0 <= subtree_rects(sh, idx, r)[t].h,
    decreases idx, 1int, 0int,
{
    if 0 <= idx < sh.len() {
        let kids = sh[idx].children;
        let n = kids.len() as int;
        if n == 1 && 0 <= kids[0] < idx {
            lemma_subtree_rects_nonneg(sh, kids[0], r);
            assert forall|t: int| #[trigger] subtree_rects(sh, idx, r).dom().contains(t) implies 0
                <= subtree_rects(sh, idx, r)[t].w && 0 <= subtree_rects(sh, idx, r)[t].h by {
                if subtree_rects(sh, kids[0], r).dom().contains(t) {
                    assert(subtree_rects(sh, idx, r)[t] == subtree_rects(sh, kids[0], r)[t]);
                }
            }
        } else if n >= 2 {
            lemma_children_rects_nonneg(sh, idx, r, n);
            assert forall|t: int| #[trigger] subtree_rects(sh, idx, r).dom().contains(t) implies 0
                <= subtree_rects(sh, idx, r)[t].w && 0 <= subtree_rects(sh, idx, r)[t].h by {
                if children_rects(sh, idx, r, n).dom().contains(t) {
                    assert(subtree_rects(sh, idx, r)[t] == children_rects(sh, idx, r, n)[t]);
                }
            }
        }
    }
}

/// As above, over the first `k` child walks.
proof fn lemma_children_rects_nonneg(sh: Seq<NodeShape>, idx: int, r: Rect, k: int)
    requires
        0 <= r.w,
        0 <= r.h,
    ensures
        forall|t: int|
            #[trigger] children_rects(sh, idx, r, k).dom().contains(t) ==> 0 <= children_rects(
                sh,
                idx,
                r,
                k,
            )[t].w && 0 <= children_rects(sh, idx, r, k)[t].h,
    decreases idx, 0int, k,
{
    if 0 <= idx < sh.len() && k > 0 {
        let kids = sh[idx].children;
        let n = kids.len() as int;
        lemma_children_rects_nonneg(sh, idx, r, k - 1);
        if k <= n && 0 <= kids[k - 1] < idx {
            let rc = split_rect(sh[idx].direction, r, n, k - 1);
            assert(0 <= rc.w && 0 <= rc.h) by {
                vstd::arithmetic::div_mod::lemma_div_pos_is_pos(r.w, n);
                vstd::arithmetic::div_mod::lemma_div_pos_is_pos(r.h, n);
            }
            lemma_subtree_rects_nonneg(sh, kids[k - 1], rc);
            assert forall|t: int| #[trigger] children_rects(sh, idx, r, k).dom().contains(
                t,
            ) implies 0 <= children_rects(sh, idx, r, k)[t].w && 0 <= children_rects(
                sh,
                idx,
                r,
                k,
            )[t].h by {
                if subtree_rects(sh, kids[k - 1], rc).dom().contains(t) {
                    assert(children_rects(sh, idx, r, k)[t] == subtree_rects(sh, kids[k - 1], rc)[t]);
                } else {
                    assert(children_rects(sh, idx, r, k)[t] == children_rects(sh, idx, r, k - 1)[t]);
                }
            }
        } else {
            assert(children_rects(sh, idx, r, k) == children_rects(sh, idx, r, k - 1));
        }
    }
}

/// The layout rules, read off the engine's stored rectangles after a
/// successful computation pass over a tree-shaped arena: the pass's root
/// holds exactly the rectangle handed in; a visited node's single child
/// holds its parent's rectangle unchanged; and each of a visited node's two
/// or more children holds the equal `floor` split of its parent's
/// rectangle, offset by its position, along its parent's direction.
pub proof fn lemma_computed_rectangles(pre: Seq<Node>, post: Seq<Node>, idx: int, r: Rect)
    requires
        tree_shaped(shapes(pre)),
        0 <= idx < pre.len(),
        pass_result(pre, post, subtree_rects(shapes(pre), idx, r)),
    ensures
        post.len() == pre.len(),
        subtree_rects(shapes(pre), idx, r).dom().contains(idx),
        post[idx].layout is Some && post[idx].layout.unwrap()@ == r,
        forall|q: int|
            #[trigger] subtree_rects(shapes(pre), idx, r).dom().contains(q) ==> {
                let sh = shapes(pre);
                let kids = sh[q].children;
                &&& 0 <= q < post.len()
                &&& post[q].layout is Some
                &&& (kids.len() == 1 ==> post[kids[0]].layout == post[q].layout)
                &&& (kids.len() >= 2 ==> forall|j: int|
                    0 <= j < kids.len() ==> (#[trigger] post[kids[j]].layout) is Some
                        && post[kids[j]].layout.unwrap()@ == split_rect(
                        sh[q].direction,
                        post[q].layout.unwrap()@,
                        kids.len() as int,
                        j,
                    ))
            },
{
    let sh = shapes(pre);
    let m = subtree_rects(sh, idx, r);
    lemma_root_rect(sh, idx, r);
    lemma_subtree_rects_per_rules(sh, idx, r);
    lemma_subtree_rects_dom(sh, idx, r);
    assert forall|q: int| #[trigger] m.dom().contains(q) implies {
        let kids = sh[q].children;
        &&& 0 <= q < post.len()
        &&& post[q].layout is Some
        &&& (kids.len() == 1 ==> post[kids[0]].layout == post[q].layout)
        &&& (kids.len() >= 2 ==> forall|j: int|
            0 <= j < kids.len() ==> (#[trigger] post[kids[j]].layout) is Some
                && post[kids[j]].layout.unwrap()@ == split_rect(
                sh[q].direction,
                post[q].layout.unwrap()@,
                kids.len() as int,
                j,
            ))
    } by {
        lemma_reaches_le(sh, idx, q);
        assert(assigned_per_rules(sh, m, q));
        let kids = sh[q].children;
        if kids.len() == 1 {
            assert(m.dom().contains(kids[0]));
        }
        if kids.len() >= 2 {
            assert forall|j: int| 0 <= j < kids.len() implies (#[trigger] post[kids[j]].layout)
                is Some && post[kids[j]].layout.unwrap()@ == split_rect(
                sh[q].direction,
                post[q].layout.unwrap()@,
                kids.len() as int,
                j,
            ) by {
                assert(m.dom().contains(kids[j]));
                assert(m[kids[j]] == split_rect(sh[q].direction, m[q], kids.len() as int, j));
            }
        }
    }
}

/// What an equal split hands out in total: `n` children of extent
/// `floor(e / n)` cover at most `e` cells, and cover strictly less exactly
/// when the division leaves a remainder — those trailing cells are dropped,
/// not handed to the last child.
pub proof fn lemma_split_remainder(e: int, n: int)
    requires
        0 <= e,
        2 <= n,
    ensures
        n * (e / n) <= e,
        e % n == 0 <==> n * (e / n) == e,
{
    vstd::arithmetic::div_mod::lemma_fundamental_div_mod(e, n);
    vstd::arithmetic::div_mod::lemma_mod_bound(e, n);
}

/// The rectangles of the first `k` child walks of a node obey the layout
/// rules, and child `j` itself holds its equal split share.
proof fn lemma_children_rects_per_rules(sh: Seq<NodeShape>, idx: int, r: Rect, k: int)
    requires
        tree_shaped(sh),
        0 <= idx < sh.len(),
        2 <= sh[idx].children.len(),
        0 <= k <= sh[idx].children.len(),
    ensures
        forall|q: int|
            #[trigger] children_rects(sh, idx, r, k).dom().contains(q) ==> assigned_per_rules(
                sh,
                children_rects(sh, idx, r, k),
                q,
            ),
        forall|j: int|
            0 <= j < k ==> children_rects(sh, idx, r, k).dom().contains(
                #[trigger] sh[idx].children[j],
            ) && children_rects(sh, idx, r, k)[sh[idx].children[j]] == split_rect(
                sh[idx].direction,
                r,
                sh[idx].children.len() as int,
                j,
            ),
    decreases idx, 0int, k,
{
    if k > 0 {
        let kids = sh[idx].children;
        let n = kids.len() as int;
        let cm1 = children_rects(sh, idx, r, k - 1);
        let c = kids[k - 1];
        assert(0 <= c < idx);
        let rc = split_rect(sh[idx].direction, r, n, k - 1);
        let mc = subtree_rects(sh, c, rc);
        let cm = children_rects(sh, idx, r, k);
        assert(cm == cm1.union_prefer_right(mc));
        lemma_children_rects_per_rules(sh, idx, r, k - 1);
        lemma_subtree_rects_per_rules(sh, c, rc);
        lemma_root_rect(sh, c, rc);
        lemma_children_rects_dom(sh, idx, r, k - 1);
        lemma_subtree_rects_dom(sh, c, rc);
        // the earlier children's walks and this child's walk share no node
        assert forall|t: int| #[trigger] cm1.dom().contains(t) implies !mc.dom().contains(t) by {
            if mc.dom().contains(t) {
                lemma_kids_reach_elim(sh, idx, t, k - 1);
                let j = choose|j: int|
                    0 <= j < k - 1 && j < kids.len() && 0 <= #[trigger] kids[j] < idx && reaches(
                        sh,
                        kids[j],
                        t,
                    );
                lemma_sibling_not_reaches(sh, idx, j, k - 1);
                lemma_sibling_not_reaches(sh, idx, k - 1, j);
                lemma_reaches_disjoint(sh, kids[j], c, t);
            }
        }
        assert forall|q: int| #[trigger] cm.dom().contains(q) implies assigned_per_rules(
            sh,
            cm,
            q,
        ) by {
            let qk = sh[q].children;
            let qn = qk.len() as int;
            if mc.dom().contains(q) {
                assert(assigned_per_rules(sh, mc, q));
                if qn >= 2 {
                    assert forall|j: int| 0 <= j < qn implies cm.dom().contains(
                        #[trigger] qk[j],
                    ) && cm[qk[j]] == split_rect(sh[q].direction, cm[q], qn, j) by {
                        assert(mc.dom().contains(qk[j]));
                    }
                }
            } else {
                assert(cm1.dom().contains(q));
                assert(assigned_per_rules(sh, cm1, q));
                if qn == 1 {
                    assert(cm1.dom().contains(qk[0]));
                }
                if qn >= 2 {
                    assert forall|j: int| 0 <= j < qn implies cm.dom().contains(
                        #[trigger] qk[j],
                    ) && cm[qk[j]] == split_rect(sh[q].direction, cm[q], qn, j) by {
                        assert(cm1.dom().contains(qk[j]));
                    }
                }
            }
        }
        assert forall|j: int| 0 <= j < k implies cm.dom().contains(#[trigger] kids[j])
            && cm[kids[j]] == split_rect(sh[idx].direction, r, n, j) by {
            if j < k - 1 {
                assert(cm1.dom().contains(kids[j]));
            } else {
                assert(mc.dom().contains(c));
            }
        }
    }
}

} // verus!
