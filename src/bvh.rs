use vstd::prelude::*;

use crate::bounds::{lemma_join_contains, lemma_line_inside_meets_slabs, Axis, Bounds};
use crate::math::in_grid;
use crate::ray::Ray;
use crate::triangle::{hit_spec, ray_hits, Intersection, Triangle};

verus! {

/// A node of the hierarchy; children are indices into the same node array.
#[derive(Debug, Copy, Clone, PartialEq, Eq, Structural)]
pub enum BvhNode {
    Branch { bounds: Bounds, left: usize, right: usize },
    Leaf { bounds: Bounds, primitive: usize },
}

impl BvhNode {
    pub open spec fn bounds_of(self) -> Bounds {
        match self {
            BvhNode::Branch { bounds, .. } => bounds,
            BvhNode::Leaf { bounds, .. } => bounds,
        }
    }
}

/// The primitives held by the subtree rooted at node `i`. Children always stand before
/// their parent in the array, which is what makes this a tree.
pub open spec fn subtree(nodes: Seq<BvhNode>, i: int) -> Set<usize>
    decreases i,
{
    if 0 <= i < nodes.len() {
        match nodes[i] {
            BvhNode::Leaf { primitive, .. } => set![primitive],
            BvhNode::Branch { left, right, .. } => {
                if left < i && right < i {
                    subtree(nodes, left as int).union(subtree(nodes, right as int))
                } else {
                    Set::empty()
                }
            },
        }
    } else {
        Set::empty()
    }
}

/// Node `i` is well formed: a leaf holds a valid primitive and exactly its bounds; a
/// branch points at two earlier nodes whose subtrees are not empty and share no primitive,
/// and its box is the join of their boxes.
pub open spec fn node_wf(nodes: Seq<BvhNode>, tris: Seq<Triangle>, i: int) -> bool {
    match nodes[i] {
        BvhNode::Leaf { bounds, primitive } => primitive < tris.len() && bounds
            == tris[primitive as int].bounds_spec(),
        BvhNode::Branch { bounds, left, right } => {
            &&& left < i
            &&& right < i
            &&& bounds.wf()
            &&& bounds == nodes[left as int].bounds_of().join_spec(nodes[right as int].bounds_of())
            &&& subtree(nodes, left as int).disjoint(subtree(nodes, right as int))
            &&& subtree(nodes, left as int) != Set::<usize>::empty()
            &&& subtree(nodes, right as int) != Set::<usize>::empty()
        },
    }
}

/// `b` is the join of the boxes of the primitives in `ps`: it holds each of them, and each
/// of its six faces is a face of one of them.
pub open spec fn is_join_of(b: Bounds, tris: Seq<Triangle>, ps: Set<usize>) -> bool {
    &&& forall|p: usize| #[trigger] ps.contains(p) ==> p < tris.len() && b.contains_box(tris[p as int].bounds_spec())
    &&& exists|p: usize| #[trigger] ps.contains(p) && p < tris.len() && tris[p as int].bounds_spec().min.x == b.min.x
    &&& exists|p: usize| #[trigger] ps.contains(p) && p < tris.len() && tris[p as int].bounds_spec().min.y == b.min.y
    &&& exists|p: usize| #[trigger] ps.contains(p) && p < tris.len() && tris[p as int].bounds_spec().min.z == b.min.z
    &&& exists|p: usize| #[trigger] ps.contains(p) && p < tris.len() && tris[p as int].bounds_spec().max.x == b.max.x
    &&& exists|p: usize| #[trigger] ps.contains(p) && p < tris.len() && tris[p as int].bounds_spec().max.y == b.max.y
    &&& exists|p: usize| #[trigger] ps.contains(p) && p < tris.len() && tris[p as int].bounds_spec().max.z == b.max.z
}

/// Every branch among nodes `lo .. hi` points only at nodes in that range.
pub open spec fn closed_range(nodes: Seq<BvhNode>, lo: int, hi: int) -> bool {
    forall|i: int| #![trigger nodes[i]] lo <= i < hi ==> match nodes[i] {
        BvhNode::Branch { left, right, .. } => lo <= left && lo <= right,
        BvhNode::Leaf { .. } => true,
    }
}

pub open spec fn nodes_wf(nodes: Seq<BvhNode>, tris: Seq<Triangle>) -> bool {
    forall|i: int| 0 <= i < nodes.len() ==> #[trigger] node_wf(nodes, tris, i)
}

/// The indices of all primitives `0 .. n`.
pub open spec fn all_primitives(n: nat) -> Set<usize> {
    Set::new(|p: usize| p < n)
}

/// The primitives among `0 .. tris.len()` whose boxes overlap `query`.
pub open spec fn overlapping(tris: Seq<Triangle>, query: Bounds) -> Set<usize> {
    Set::new(|p: usize| p < tris.len() && tris[p as int].bounds_spec().overlaps_spec(query))
}

/// A bounding volume hierarchy over a fixed set of triangles.
pub struct Bvh {
    nodes: Vec<BvhNode>,
    root: Option<usize>,
    triangles: Vec<Triangle>,
}

/// Adding a node at the end leaves every earlier subtree as it was.
proof fn lemma_subtree_push(nodes: Seq<BvhNode>, x: BvhNode, i: int)
    requires
        0 <= i < nodes.len(),
    ensures
        subtree(nodes.push(x), i) == subtree(nodes, i),
    decreases i,
{
    let n2 = nodes.push(x);
    assert(n2[i] == nodes[i]);
    match nodes[i] {
        BvhNode::Leaf { .. } => {},
        BvhNode::Branch { left, right, .. } => {
            if left < i && right < i {
                lemma_subtree_push(nodes, x, left as int);
                lemma_subtree_push(nodes, x, right as int);
            }
        },
    }
}

proof fn lemma_nodes_wf_push(nodes: Seq<BvhNode>, tris: Seq<Triangle>, x: BvhNode)
    requires
        nodes_wf(nodes, tris),
        node_wf(nodes.push(x), tris, nodes.len() as int),
    ensures
        nodes_wf(nodes.push(x), tris),
{
    let n2 = nodes.push(x);
    assert forall|i: int| 0 <= i < n2.len() implies #[trigger] node_wf(n2, tris, i) by {
        if i < nodes.len() {
            lemma_subtree_push(nodes, x, i);
            assert(n2[i] == nodes[i]);
            assert(node_wf(nodes, tris, i));
            if let BvhNode::Branch { left, right, .. } = nodes[i] {
                assert(n2[left as int] == nodes[left as int]);
                assert(n2[right as int] == nodes[right as int]);
                lemma_subtree_push(nodes, x, left as int);
                lemma_subtree_push(nodes, x, right as int);
            }
        }
    }
}

/// A well-formed subtree holds only valid primitives, each inside the subtree's box.
proof fn lemma_subtree_in_box(nodes: Seq<BvhNode>, tris: Seq<Triangle>, i: int, p: usize)
    requires
        nodes_wf(nodes, tris),
        0 <= i < nodes.len(),
        subtree(nodes, i).contains(p),
    ensures
        p < tris.len(),
        nodes[i].bounds_of().contains_box(tris[p as int].bounds_spec()),
    decreases i,
{
    assert(node_wf(nodes, tris, i));
    match nodes[i] {
        BvhNode::Leaf { bounds, primitive } => {
            assert(p == primitive);
        },
        BvhNode::Branch { left, right, .. } => {
            lemma_join_contains(nodes[left as int].bounds_of(), nodes[right as int].bounds_of());
            if subtree(nodes, left as int).contains(p) {
                lemma_subtree_in_box(nodes, tris, left as int, p);
            } else {
                lemma_subtree_in_box(nodes, tris, right as int, p);
            }
        },
    }
}

/// The join of the joins of two sets of boxes is the join of their union.
proof fn lemma_join_of_union(a: Bounds, b: Bounds, tris: Seq<Triangle>, l: Set<usize>, r: Set<usize>)
    requires
        is_join_of(a, tris, l),
        is_join_of(b, tris, r),
    ensures
        is_join_of(a.join_spec(b), tris, l.union(r)),
{
    let j = a.join_spec(b);
    let u = l.union(r);
    lemma_join_contains(a, b);
    assert forall|p: usize| #[trigger] u.contains(p) implies p < tris.len() && j.contains_box(tris[p as int].bounds_spec()) by {
        if l.contains(p) {
        } else {
            assert(r.contains(p));
        }
    }
    let pa = choose|p: usize| #[trigger] l.contains(p) && p < tris.len() && tris[p as int].bounds_spec().min.x == a.min.x;
    let pb = choose|p: usize| #[trigger] r.contains(p) && p < tris.len() && tris[p as int].bounds_spec().min.x == b.min.x;
    assert(u.contains(pa) && u.contains(pb));
    let pa = choose|p: usize| #[trigger] l.contains(p) && p < tris.len() && tris[p as int].bounds_spec().min.y == a.min.y;
    let pb = choose|p: usize| #[trigger] r.contains(p) && p < tris.len() && tris[p as int].bounds_spec().min.y == b.min.y;
    assert(u.contains(pa) && u.contains(pb));
    let pa = choose|p: usize| #[trigger] l.contains(p) && p < tris.len() && tris[p as int].bounds_spec().min.z == a.min.z;
    let pb = choose|p: usize| #[trigger] r.contains(p) && p < tris.len() && tris[p as int].bounds_spec().min.z == b.min.z;
    assert(u.contains(pa) && u.contains(pb));
    let pa = choose|p: usize| #[trigger] l.contains(p) && p < tris.len() && tris[p as int].bounds_spec().max.x == a.max.x;
    let pb = choose|p: usize| #[trigger] r.contains(p) && p < tris.len() && tris[p as int].bounds_spec().max.x == b.max.x;
    assert(u.contains(pa) && u.contains(pb));
    let pa = choose|p: usize| #[trigger] l.contains(p) && p < tris.len() && tris[p as int].bounds_spec().max.y == a.max.y;
    let pb = choose|p: usize| #[trigger] r.contains(p) && p < tris.len() && tris[p as int].bounds_spec().max.y == b.max.y;
    assert(u.contains(pa) && u.contains(pb));
    let pa = choose|p: usize| #[trigger] l.contains(p) && p < tris.len() && tris[p as int].bounds_spec().max.z == a.max.z;
    let pb = choose|p: usize| #[trigger] r.contains(p) && p < tris.len() && tris[p as int].bounds_spec().max.z == b.max.z;
    assert(u.contains(pa) && u.contains(pb));
}

/// Adding an element that is not there keeps a sequence free of duplicates.
proof fn lemma_push_fresh(s: Seq<usize>, x: usize)
    requires
        s.no_duplicates(),
        !s.contains(x),
    ensures
        s.push(x).no_duplicates(),
        forall|y: usize| s.push(x).contains(y) <==> (s.contains(y) || y == x),
{
    let t = s.push(x);
    assert forall|i: int, j: int| 0 <= i < t.len() && 0 <= j < t.len() && i != j implies t[i] != t[j] by {
        if i < s.len() && j < s.len() {
            assert(t[i] == s[i] && t[j] == s[j]);
        } else if i < s.len() {
            assert(t[i] == s[i]);
        } else {
            assert(t[j] == s[j]);
        }
    }
    assert forall|y: usize| t.contains(y) <==> (s.contains(y) || y == x) by {
        if t.contains(y) {
            let i = choose|i: int| 0 <= i < t.len() && t[i] == y;
            if i < s.len() {
                assert(s[i] == y);
            }
        }
        if s.contains(y) {
            let i = choose|i: int| 0 <= i < s.len() && s[i] == y;
            assert(t[i] == y);
        }
        if y == x {
            assert(t[s.len() as int] == x);
        }
    }
}

/// Dropping the first element of a sequence without duplicates drops that element.
proof fn lemma_drop_first(s: Seq<usize>)
    requires
        s.no_duplicates(),
        s.len() > 0,
    ensures
        s.remove(0).no_duplicates(),
        forall|y: usize| s.remove(0).contains(y) <==> (s.contains(y) && y != s[0]),
{
    let t = s.remove(0);
    assert forall|i: int| 0 <= i < t.len() implies t[i] == s[i + 1] by {}
    assert forall|y: usize| t.contains(y) <==> (s.contains(y) && y != s[0]) by {
        if t.contains(y) {
            let i = choose|i: int| 0 <= i < t.len() && t[i] == y;
            assert(s[i + 1] == y);
        }
        if s.contains(y) && y != s[0] {
            let i = choose|i: int| 0 <= i < s.len() && s[i] == y;
            assert(t[i - 1] == y);
        }
    }
}

/// A box that holds `b` overlaps every box that `b` overlaps.
proof fn lemma_overlap_grows(outer: Bounds, b: Bounds, q: Bounds)
    requires
        outer.contains_box(b),
        b.overlaps_spec(q),
    ensures
        outer.overlaps_spec(q),
{
}

/// The centroid of `b` lies before the centroid of `node` on `axis` (compared exactly, as
/// sums of the two corners).
pub open spec fn goes_left(b: Bounds, node: Bounds, axis: Axis) -> bool {
    match axis {
        Axis::X => b.min.x + b.max.x < node.min.x + node.max.x,
        Axis::Y => b.min.y + b.max.y < node.min.y + node.max.y,
        Axis::Z => b.min.z + b.max.z < node.min.z + node.max.z,
    }
}

fn centroid_before(b: &Bounds, node: &Bounds, axis: Axis) -> (r: bool)
    ensures
        r == goes_left(*b, *node, axis),
{
    match axis {
        Axis::X => (b.min.x as i64 + b.max.x as i64) < (node.min.x as i64 + node.max.x as i64),
        Axis::Y => (b.min.y as i64 + b.max.y as i64) < (node.min.y as i64 + node.max.y as i64),
        Axis::Z => (b.min.z as i64 + b.max.z as i64) < (node.min.z as i64 + node.max.z as i64),
    }
}

/// The triangles' boxes, in order.
pub open spec fn boxes_of(tris: Seq<Triangle>, boxes: Seq<Bounds>) -> bool {
    boxes.len() == tris.len() && forall|i: int|
        0 <= i < tris.len() ==> #[trigger] boxes[i] == tris[i].bounds_spec()
}

pub open spec fn valid_primitives(prims: Seq<usize>, n: nat) -> bool {
    forall|k: int| 0 <= k < prims.len() ==> #[trigger] prims[k] < n
}

/// The box that holds the boxes of all the given primitives.
fn union_bounds(boxes: &Vec<Bounds>, prims: &Vec<usize>) -> (r: Bounds)
    requires
        prims.len() >= 1,
        valid_primitives(prims@, boxes.len() as nat),
        forall|i: int| 0 <= i < boxes.len() ==> (#[trigger] boxes[i]).wf(),
    ensures
        r.wf(),
        forall|k: int| 0 <= k < prims.len() ==> r.contains_box(#[trigger] boxes[prims[k] as int]),
{
    let mut acc = boxes[prims[0]];
    let mut k: usize = 1;
    while k < prims.len()
        invariant
            1 <= k <= prims.len(),
            valid_primitives(prims@, boxes.len() as nat),
            forall|i: int| 0 <= i < boxes.len() ==> (#[trigger] boxes[i]).wf(),
            acc.wf(),
            forall|j: int| 0 <= j < k ==> acc.contains_box(#[trigger] boxes[prims[j] as int]),
        decreases prims.len() - k,
    {
        let next = acc.join(&boxes[prims[k]]);
        proof {
            lemma_join_contains(acc, boxes[prims[k as int] as int]);
        }
        acc = next;
        k = k + 1;
    }
    acc
}

/// `y` is in `s.push(x)` exactly when it is in `s` or is `x`.
proof fn lemma_push_contains(s: Seq<usize>, x: usize)
    ensures
        forall|y: usize| s.push(x).contains(y) <==> (s.contains(y) || y == x),
{
    let t = s.push(x);
    assert forall|y: usize| t.contains(y) <==> (s.contains(y) || y == x) by {
        if t.contains(y) {
            let i = choose|i: int| 0 <= i < t.len() && t[i] == y;
            if i < s.len() {
                assert(s[i] == y);
            }
        }
        if s.contains(y) {
            let i = choose|i: int| 0 <= i < s.len() && s[i] == y;
            assert(t[i] == y);
        }
        if y == x {
            assert(t[s.len() as int] == x);
        }
    }
}

/// `l` and `r` split the elements of `s`: neither repeats an element, they share none,
/// and together they hold exactly those of `s`.
#[verifier::opaque]
pub open spec fn split_of(l: Seq<usize>, r: Seq<usize>, s: Seq<usize>) -> bool {
    &&& l.no_duplicates()
    &&& r.no_duplicates()
    &&& forall|x: usize| !(#[trigger] l.contains(x) && r.contains(x))
    &&& forall|x: usize| (#[trigger] l.contains(x) || r.contains(x)) <==> s.contains(x)
    &&& forall|x: usize| (l.contains(x) || #[trigger] r.contains(x)) <==> s.contains(x)
}

proof fn lemma_split_push(l0: Seq<usize>, r0: Seq<usize>, head: Seq<usize>, p: usize, to_left: bool)
    requires
        split_of(l0, r0, head),
        !head.contains(p),
    ensures
        to_left ==> split_of(l0.push(p), r0, head.push(p)),
        !to_left ==> split_of(l0, r0.push(p), head.push(p)),
{
    reveal(split_of);
    lemma_push_contains(head, p);
    assert(!l0.contains(p) && !r0.contains(p));
    let h = head.push(p);
    if to_left {
        let l = l0.push(p);
        lemma_push_fresh(l0, p);
        assert forall|x: usize| !(#[trigger] l.contains(x) && r0.contains(x)) by {
            assert(!(l0.contains(x) && r0.contains(x)));
        }
        assert forall|x: usize| (#[trigger] l.contains(x) || r0.contains(x)) <==> h.contains(x) by {
            assert(head.contains(x) == (l0.contains(x) || r0.contains(x)));
        }
    } else {
        let r = r0.push(p);
        lemma_push_fresh(r0, p);
        assert forall|x: usize| !(#[trigger] l0.contains(x) && r.contains(x)) by {
            assert(!(l0.contains(x) && r0.contains(x)));
        }
        assert forall|x: usize| (#[trigger] l0.contains(x) || r.contains(x)) <==> h.contains(x) by {
            assert(head.contains(x) == (l0.contains(x) || r0.contains(x)));
        }
    }
}

proof fn lemma_split_move(l0: Seq<usize>, r0: Seq<usize>, s: Seq<usize>)
    requires
        split_of(l0, r0, s),
        r0.len() > 0,
    ensures
        split_of(l0.push(r0[0]), r0.remove(0), s),
        split_of(r0.remove(0), l0.push(r0[0]), s),
{
    reveal(split_of);
    let x0 = r0[0];
    assert(r0.contains(x0));
    lemma_drop_first(r0);
    assert(!l0.contains(x0));
    lemma_push_fresh(l0, x0);
    let (l, r) = (l0.push(x0), r0.remove(0));
    assert forall|x: usize| !(#[trigger] l.contains(x) && r.contains(x)) by {
        assert(!(l0.contains(x) && r0.contains(x)));
    }
    assert forall|x: usize| (#[trigger] l.contains(x) || r.contains(x)) <==> s.contains(x) by {
        assert(s.contains(x) == (l0.contains(x) || r0.contains(x)));
    }
    assert forall|x: usize| !(#[trigger] r.contains(x) && l.contains(x)) by {
        assert(!(l0.contains(x) && r0.contains(x)));
    }
    assert forall|x: usize| (#[trigger] r.contains(x) || l.contains(x)) <==> s.contains(x) by {
        assert(s.contains(x) == (l0.contains(x) || r0.contains(x)));
    }
}

proof fn lemma_split_swap(l: Seq<usize>, r: Seq<usize>, s: Seq<usize>)
    requires
        split_of(l, r, s),
    ensures
        split_of(r, l, s),
{
    reveal(split_of);
    assert forall|x: usize| !(#[trigger] r.contains(x) && l.contains(x)) by {
        assert(!(l.contains(x) && r.contains(x)));
    }
    assert forall|x: usize| (#[trigger] r.contains(x) || l.contains(x)) <==> s.contains(x) by {
        assert(s.contains(x) == (l.contains(x) || r.contains(x)));
    }
}

proof fn lemma_split_empty()
    ensures
        split_of(Seq::<usize>::empty(), Seq::<usize>::empty(), Seq::<usize>::empty()),
{
    reveal(split_of);
}

/// What a split gives the two halves: disjoint sets whose union is the whole, and elements
/// taken from the whole.
proof fn lemma_split_sets(l: Seq<usize>, r: Seq<usize>, s: Seq<usize>)
    requires
        split_of(l, r, s),
    ensures
        l.no_duplicates(),
        r.no_duplicates(),
        l.to_set().disjoint(r.to_set()),
        l.to_set().union(r.to_set()) == s.to_set(),
        forall|k: int| 0 <= k < l.len() ==> s.contains(#[trigger] l[k]),
        forall|k: int| 0 <= k < r.len() ==> s.contains(#[trigger] r[k]),
{
    reveal(split_of);
    assert forall|x: usize| !(l.to_set().contains(x) && r.to_set().contains(x)) by {
        assert(!(l.contains(x) && r.contains(x)));
    }
    assert forall|x: usize| l.to_set().union(r.to_set()).contains(x) <==> s.to_set().contains(x) by {
        assert(s.contains(x) == (l.contains(x) || r.contains(x)));
    }
    assert(l.to_set().union(r.to_set()) =~= s.to_set());
    assert forall|k: int| 0 <= k < l.len() implies s.contains(#[trigger] l[k]) by {
        assert(l.contains(l[k]));
        assert(s.contains(l[k]) == (l.contains(l[k]) || r.contains(l[k])));
    }
    assert forall|k: int| 0 <= k < r.len() implies s.contains(#[trigger] r[k]) by {
        assert(r.contains(r[k]));
        assert(s.contains(r[k]) == (l.contains(r[k]) || r.contains(r[k])));
    }
}

/// Builds the subtree over `prims` at the end of `nodes`, and returns its index and box.
///
/// The nodes it adds point only at one another, its box is the join of the primitives'
/// boxes, and, the two halves of every split being disjoint, each primitive ends in one leaf.
#[verifier::rlimit(100)]
fn build_recursive(
    triangles: &Vec<Triangle>,
    boxes: &Vec<Bounds>,
    prims: Vec<usize>,
    nodes: &mut Vec<BvhNode>,
) -> (r: (usize, Bounds))
    requires
        prims.len() >= 1,
        prims@.no_duplicates(),
        valid_primitives(prims@, triangles.len() as nat),
        boxes_of(triangles@, boxes@),
        nodes_wf(old(nodes)@, triangles@),
        old(nodes).len() + 2 * prims.len() <= usize::MAX,
    ensures
        nodes_wf(final(nodes)@, triangles@),
        final(nodes).len() == old(nodes).len() + 2 * prims.len() - 1,
        final(nodes)@.subrange(0, old(nodes).len() as int) == old(nodes)@,
        closed_range(final(nodes)@, old(nodes).len() as int, final(nodes).len() as int),
        r.0 == final(nodes).len() - 1,
        subtree(final(nodes)@, r.0 as int) == prims@.to_set(),
        r.1 == final(nodes)@[r.0 as int].bounds_of(),
        is_join_of(r.1, triangles@, prims@.to_set()),
        r.1.wf(),
    decreases prims.len(),
{
    let ghost tris = triangles@;
    proof {
        assert forall|i: int| 0 <= i < boxes.len() implies (#[trigger] boxes[i]).wf() by {
            assert(boxes[i] == tris[i].bounds_spec());
        }
    }
    if prims.len() == 1 {
        let primitive = prims[0];
        let bounds = boxes[primitive];
        let index = nodes.len();
        let ghost before = nodes@;
        let node = BvhNode::Leaf { bounds, primitive };
        nodes.push(node);
        proof {
            assert(nodes@ == before.push(node));
            assert(node_wf(nodes@, tris, index as int));
            lemma_nodes_wf_push(before, tris, node);
            assert(prims@.to_set() =~= set![primitive]) by {
                assert(prims@ == seq![primitive]);
                assert forall|p: usize| prims@.to_set().contains(p) implies p == primitive by {
                    assert(prims@.contains(p));
                }
                assert(prims@.contains(primitive));
            }
            assert(nodes@.subrange(0, before.len() as int) =~= before);
            assert(set![primitive].contains(primitive));
            assert(is_join_of(bounds, tris, set![primitive]));
        }
        return (index, bounds);
    }
    let ghost start = nodes@;
    let mut left: Vec<usize> = Vec::new();
    let mut right: Vec<usize> = Vec::new();
    let node_bounds = union_bounds(boxes, &prims);
    if prims.len() == 2 {
        left.push(prims[0]);
        right.push(prims[1]);
        proof {
            let (first, second) = (prims@[0], prims@[1]);
            assert(first != second);
            assert(prims@ =~= Seq::<usize>::empty().push(first).push(second));
            lemma_split_empty();
            lemma_split_push(Seq::empty(), Seq::empty(), Seq::empty(), first, true);
            lemma_push_contains(Seq::<usize>::empty(), first);
            lemma_split_push(Seq::empty().push(first), Seq::empty(), Seq::empty().push(first), second, false);
            assert(left@ =~= Seq::<usize>::empty().push(first));
            assert(right@ =~= Seq::<usize>::empty().push(second));
        }
    } else {
        let axis = node_bounds.largest_direction();
        let mut k: usize = 0;
        proof {
            lemma_split_empty();
            assert(prims@.subrange(0, 0) =~= Seq::<usize>::empty());
        }
        while k < prims.len()
            invariant
                0 <= k <= prims.len(),
                left.len() + right.len() == k,
                prims@.no_duplicates(),
                valid_primitives(prims@, triangles.len() as nat),
                boxes_of(triangles@, boxes@),
                split_of(left@, right@, prims@.subrange(0, k as int)),
            decreases prims.len() - k,
        {
            let p = prims[k];
            assert(prims@[k as int] < triangles.len());
            let ghost (l0, r0) = (left@, right@);
            let ghost head = prims@.subrange(0, k as int);
            proof {
                if head.contains(p) {
                    let j = choose|j: int| 0 <= j < head.len() && head[j] == p;
                    assert(prims@[j] == prims@[k as int]);
                }
                assert(prims@.subrange(0, k + 1) == head.push(p));
            }
            if centroid_before(&boxes[p], &node_bounds, axis) {
                left.push(p);
                proof {
                    lemma_split_push(l0, r0, head, p, true);
                }
            } else {
                right.push(p);
                proof {
                    lemma_split_push(l0, r0, head, p, false);
                }
            }
            k = k + 1;
        }
        proof {
            assert(prims@.subrange(0, prims.len() as int) == prims@);
        }
        // an empty side would recurse on the whole set again: move primitives over one
        // at a time until both sides hold some
        let n = prims.len();
        if left.len() == 0 {
            while right.len() >= left.len()
                invariant
                    left.len() + right.len() == n,
                    n >= 3,
                    left.len() <= n / 2 + 1,
                    split_of(left@, right@, prims@),
                decreases right.len(),
            {
                let ghost (l0, r0) = (left@, right@);
                let x = right.remove(0);
                left.push(x);
                proof {
                    lemma_split_move(l0, r0, prims@);
                }
            }
        }
        if right.len() == 0 {
            while left.len() >= right.len()
                invariant
                    left.len() + right.len() == n,
                    n >= 3,
                    right.len() <= n / 2 + 1,
                    split_of(left@, right@, prims@),
                decreases left.len(),
            {
                let ghost (l0, r0) = (left@, right@);
                let x = left.remove(0);
                right.push(x);
                proof {
                    lemma_split_swap(l0, r0, prims@);
                    lemma_split_move(r0, l0, prims@);
                }
            }
        }
    }
    proof {
        lemma_split_sets(left@, right@, prims@);
        assert forall|k: int| 0 <= k < left.len() implies #[trigger] left@[k] < triangles.len() by {
            assert(prims@.contains(left@[k]));
            let i = choose|i: int| 0 <= i < prims@.len() && prims@[i] == left@[k];
        }
        assert forall|k: int| 0 <= k < right.len() implies #[trigger] right@[k] < triangles.len() by {
            assert(prims@.contains(right@[k]));
            let i = choose|i: int| 0 <= i < prims@.len() && prims@[i] == right@[k];
        }
    }
    let ghost left_set = left@.to_set();
    let ghost right_set = right@.to_set();
    let (left_index, left_bounds) = build_recursive(triangles, boxes, left, nodes);
    let ghost mid = nodes@;
    let (right_index, right_bounds) = build_recursive(triangles, boxes, right, nodes);
    let ghost before = nodes@;
    let index = nodes.len();
    let bounds = left_bounds.join(&right_bounds);
    let node = BvhNode::Branch { bounds, left: left_index, right: right_index };
    nodes.push(node);
    proof {
        assert(nodes@ == before.push(node));
        lemma_subtree_push(before, node, left_index as int);
        lemma_subtree_push(before, node, right_index as int);
        assert(before.subrange(0, mid.len() as int) == mid);
        assert(before[left_index as int] == mid[left_index as int]);
        assert(subtree(before, left_index as int) == subtree(mid, left_index as int)) by {
            assert(mid == before.subrange(0, mid.len() as int));
            lemma_subtree_prefix(before, mid.len() as int, left_index as int);
        }
        assert(subtree(nodes@, index as int) =~= prims@.to_set()) by {
            assert(subtree(nodes@, index as int) == subtree(nodes@, left_index as int).union(
                subtree(nodes@, right_index as int),
            ));
        }
        lemma_join_contains(left_bounds, right_bounds);
        assert(left_set.contains(left@[0]) && right_set.contains(right@[0]));
        assert(node_wf(nodes@, tris, index as int));
        lemma_nodes_wf_push(before, tris, node);
        lemma_join_of_union(left_bounds, right_bounds, tris, left_set, right_set);
        assert(nodes@.subrange(0, start.len() as int) =~= start) by {
            assert(mid.subrange(0, start.len() as int) == start);
            assert(before.subrange(0, mid.len() as int) == mid);
        }
        assert forall|i: int| #![trigger nodes@[i]] start.len() <= i < nodes@.len() implies match nodes@[i] {
            BvhNode::Branch { left, right, .. } => start.len() <= left && start.len() <= right,
            BvhNode::Leaf { .. } => true,
        } by {
            if i < mid.len() {
                assert(nodes@[i] == mid[i]);
            } else if i < before.len() {
                assert(nodes@[i] == before[i]);
            }
        }
    }
    (index, bounds)
}

/// Cutting the node array after a subtree's root leaves that subtree as it was.
proof fn lemma_subtree_prefix(nodes: Seq<BvhNode>, len: int, i: int)
    requires
        0 <= i < len <= nodes.len(),
    ensures
        subtree(nodes.subrange(0, len), i) == subtree(nodes, i),
    decreases i,
{
    let sub = nodes.subrange(0, len);
    assert(sub[i] == nodes[i]);
    match nodes[i] {
        BvhNode::Leaf { .. } => {},
        BvhNode::Branch { left, right, .. } => {
            if left < i && right < i {
                lemma_subtree_prefix(nodes, len, left as int);
                lemma_subtree_prefix(nodes, len, right as int);
            }
        },
    }
}

/// The hits of the ray on the triangles whose indices are in `ps`.
pub open spec fn hits_in(tris: Seq<Triangle>, ps: Set<usize>, ray: Ray) -> Set<Intersection> {
    Set::new(
        |h: Intersection|
            exists|p: usize|
                #![trigger ps.contains(p), tris[p as int]]
                ps.contains(p) && p < tris.len() && ray_hits(tris[p as int], ray) && h
                    == hit_spec(tris[p as int], ray),
    )
}

/// The hits of the ray on every triangle, each tested on its own.
pub open spec fn all_hits(tris: Seq<Triangle>, ray: Ray) -> Set<Intersection> {
    hits_in(tris, all_primitives(tris.len()), ray)
}

/// A point inside a box lies inside every box that holds it.
proof fn lemma_scaled_inside_grows(outer: Bounds, inner: Bounds, ray: Ray, num: int, den: int)
    requires
        outer.contains_box(inner),
        inner.line_point_inside(ray, num, den),
    ensures
        outer.line_point_inside(ray, num, den),
{
    assert(den * outer.min.x <= den * inner.min.x) by (nonlinear_arith)
        requires den > 0, outer.min.x <= inner.min.x;
    assert(den * outer.min.y <= den * inner.min.y) by (nonlinear_arith)
        requires den > 0, outer.min.y <= inner.min.y;
    assert(den * outer.min.z <= den * inner.min.z) by (nonlinear_arith)
        requires den > 0, outer.min.z <= inner.min.z;
    assert(den * inner.max.x <= den * outer.max.x) by (nonlinear_arith)
        requires den > 0, inner.max.x <= outer.max.x;
    assert(den * inner.max.y <= den * outer.max.y) by (nonlinear_arith)
        requires den > 0, inner.max.y <= outer.max.y;
    assert(den * inner.max.z <= den * outer.max.z) by (nonlinear_arith)
        requires den > 0, inner.max.z <= outer.max.z;
}

/// A ray that hits a triangle crosses every box that holds the triangle's box.
proof fn lemma_hit_crosses_box(tri: Triangle, ray: Ray, outer: Bounds)
    requires
        ray_hits(tri, ray),
        outer.contains_box(tri.bounds_spec()),
    ensures
        outer.slabs_meet(ray),
{
    crate::triangle::lemma_hit_in_box(tri, ray);
    let (t, den) = (crate::triangle::hit_t(tri, ray), crate::triangle::hit_den(tri, ray));
    lemma_scaled_inside_grows(outer, tri.bounds_spec(), ray, t, den);
    lemma_line_inside_meets_slabs(outer, ray, t, den);
}

impl Bvh {
    pub closed spec fn triangles_view(&self) -> Seq<Triangle> {
        self.triangles@
    }

    pub closed spec fn nodes_view(&self) -> Seq<BvhNode> {
        self.nodes@
    }

    pub closed spec fn root_view(&self) -> Option<usize> {
        self.root
    }

    /// The nodes form one tree over all the triangles, with well-formed nodes, and every
    /// triangle lies in the grid.
    pub open spec fn wf(&self) -> bool {
        let (nodes, tris) = (self.nodes_view(), self.triangles_view());
        &&& nodes_wf(nodes, tris)
        &&& forall|i: int| 0 <= i < tris.len() ==> (#[trigger] tris[i]).wf()
        &&& match self.root_view() {
            Some(r) => r < nodes.len() && subtree(nodes, r as int) == all_primitives(tris.len()),
            None => tris.len() == 0,
        }
    }

    /// The number of nodes.
    pub fn node_count(&self) -> (r: usize)
        ensures
            r == self.nodes_view().len(),
    {
        self.nodes.len()
    }

    /// A hierarchy over no triangles; every query on it finds nothing.
    pub fn new() -> (r: Self)
        ensures
            r.wf(),
            r.triangles_view().len() == 0,
    {
        Self { nodes: Vec::new(), root: None, triangles: Vec::new() }
    }

    pub fn from_prebuilt(nodes: Vec<BvhNode>, root: Option<usize>, triangles: Vec<Triangle>) -> (r:
        Self)
        requires
            nodes_wf(nodes@, triangles@),
            forall|i: int| 0 <= i < triangles.len() ==> (#[trigger] triangles[i]).wf(),
            match root {
                Some(r) => r < nodes.len() && subtree(nodes@, r as int) == all_primitives(
                    triangles.len() as nat,
                ),
                None => triangles.len() == 0,
            },
        ensures
            r.wf(),
            r.triangles_view() == triangles@,
            r.nodes_view() == nodes@,
            r.root_view() == root,
    {
        Self { nodes, root, triangles }
    }

    pub fn get_primitive(&self, index: usize) -> (r: &Triangle)
        requires
            index < self.triangles_view().len(),
        ensures
            *r == self.triangles_view()[index as int],
    {
        &self.triangles[index]
    }

    /// The indices of the triangles whose boxes overlap `query`: exactly those that a test of
    /// every triangle's box would find.
    pub fn query_bounds(&self, query: &Bounds) -> (r: Vec<usize>)
        requires
            self.wf(),
        ensures
            r@.to_set() == overlapping(self.triangles_view(), *query),
            r@.no_duplicates(),
    {
        let mut primitives: Vec<usize> = Vec::new();
        if let Some(root) = self.root {
            self.query_recursive(root, query, &mut primitives);
            proof {
                assert(primitives@.subrange(0, primitives@.len() as int) =~= primitives@);
                assert(primitives@.to_set() =~= overlapping(self.triangles@, *query)) by {
                    assert forall|p: usize| overlapping(self.triangles@, *query).contains(p) implies
                        all_primitives(self.triangles@.len()).contains(p) by {}
                }
            }
        } else {
            proof {
                assert(primitives@.to_set() =~= overlapping(self.triangles@, *query));
            }
        }
        primitives
    }

    fn query_recursive(&self, index: usize, query: &Bounds, out: &mut Vec<usize>)
        requires
            self.wf(),
            index < self.nodes@.len(),
        ensures
            final(out)@.to_set() == old(out)@.to_set().union(
                subtree(self.nodes@, index as int).intersect(overlapping(self.triangles@, *query)),
            ),
            final(out)@.len() >= old(out)@.len(),
            final(out)@.subrange(0, old(out)@.len() as int) == old(out)@,
            final(out)@.subrange(old(out)@.len() as int, final(out)@.len() as int).no_duplicates(),
            final(out)@.subrange(old(out)@.len() as int, final(out)@.len() as int).to_set()
                == subtree(self.nodes@, index as int).intersect(overlapping(self.triangles@, *query)),
        decreases index,
    {
        let ghost nodes = self.nodes@;
        let ghost tris = self.triangles@;
        let ghost start = out@;
        proof {
            assert(node_wf(nodes, tris, index as int));
        }
        match &self.nodes[index] {
            BvhNode::Branch { bounds, left, right } => {
                if bounds.overlaps(query) {
                    self.query_recursive(*left, query, out);
                    let ghost mid = out@;
                    self.query_recursive(*right, query, out);
                    proof {
                        let o = overlapping(tris, *query);
                        let a = mid.subrange(start.len() as int, mid.len() as int);
                        let b = out@.subrange(mid.len() as int, out@.len() as int);
                        assert(out@.subrange(0, mid.len() as int) == mid);
                        assert(mid.subrange(0, start.len() as int) == start);
                        assert forall|i: int| 0 <= i < start.len() implies out@[i] == start[i] by {
                            assert(out@.subrange(0, mid.len() as int)[i] == out@[i]);
                            assert(mid.subrange(0, start.len() as int)[i] == mid[i]);
                        }
                        assert(out@.subrange(0, start.len() as int) =~= start);
                        assert forall|i: int| 0 <= i < out@.len() - start.len() implies out@.subrange(start.len() as int, out@.len() as int)[i] == (a + b)[i] by {
                            if i < a.len() {
                                assert(out@.subrange(0, mid.len() as int)[start.len() + i] == out@[start.len() + i]);
                            }
                        }
                        assert(out@.subrange(start.len() as int, out@.len() as int) =~= a + b);
                        lemma_concat_disjoint(a, b, subtree(nodes, *left as int).intersect(o), subtree(nodes, *right as int).intersect(o));
                        assert(subtree(nodes, *left as int).intersect(o).union(subtree(nodes, *right as int).intersect(o))
                            =~= subtree(nodes, index as int).intersect(o));
                        assert(out@.to_set() =~= start.to_set().union(
                            subtree(nodes, index as int).intersect(overlapping(tris, *query)),
                        ));
                    }
                } else {
                    proof {
                        assert(subtree(nodes, index as int).intersect(overlapping(tris, *query))
                            =~= Set::empty()) by {
                            assert forall|p: usize| #[trigger]
                                subtree(nodes, index as int).contains(p) implies !overlapping(
                                tris,
                                *query,
                            ).contains(p) by {
                                lemma_subtree_in_box(nodes, tris, index as int, p);
                                if tris[p as int].bounds_spec().overlaps_spec(*query) {
                                    lemma_overlap_grows(*bounds, tris[p as int].bounds_spec(), *query);
                                }
                            }
                        }
                        assert(out@.to_set() =~= start.to_set().union(Set::empty()));
                        assert(out@.subrange(0, start.len() as int) =~= start);
                        assert(out@.subrange(start.len() as int, out@.len() as int) =~= Seq::<usize>::empty());
                        assert(Seq::<usize>::empty().to_set() =~= Set::<usize>::empty());
                    }
                }
            },
            BvhNode::Leaf { bounds, primitive } => {
                if bounds.overlaps(query) {
                    out.push(*primitive);
                    proof {
                        assert(out@ == start.push(*primitive));
                        assert(out@.subrange(0, start.len() as int) =~= start);
                        assert(out@.subrange(start.len() as int, out@.len() as int) =~= Seq::<usize>::empty().push(*primitive));
                        lemma_push_to_set(Seq::<usize>::empty(), *primitive);
                        assert(Seq::<usize>::empty().to_set() =~= Set::<usize>::empty());
                        assert(subtree(nodes, index as int).intersect(overlapping(tris, *query)) =~= set![*primitive]);
                        lemma_push_to_set(start, *primitive);
                        assert(out@.to_set() =~= start.to_set().union(
                            subtree(nodes, index as int).intersect(overlapping(tris, *query)),
                        ));
                    }
                } else {
                    proof {
                        assert(out@.to_set() =~= start.to_set().union(
                            subtree(nodes, index as int).intersect(overlapping(tris, *query)),
                        ));
                        assert(out@.subrange(0, start.len() as int) =~= start);
                        assert(out@.subrange(start.len() as int, out@.len() as int) =~= Seq::<usize>::empty());
                        assert(Seq::<usize>::empty().to_set() =~= Set::<usize>::empty());
                        assert(subtree(nodes, index as int).intersect(overlapping(tris, *query)) =~= Set::<usize>::empty());
                    }
                }
            },
        }
    }

    /// The sum of the surface areas of the first `n` nodes that are branches.
    pub open spec fn cost_of(nodes: Seq<BvhNode>, n: int) -> int
        decreases n,
    {
        if n <= 0 {
            0
        } else {
            Self::cost_of(nodes, n - 1) + match nodes[n - 1] {
                BvhNode::Branch { bounds, .. } => bounds.surface_area_spec(),
                BvhNode::Leaf { .. } => 0,
            }
        }
    }

    /// A measure of the tree's quality (lower prunes better): the sum of the surface areas
    /// of all branch nodes.
    pub fn calculate_cost(&self) -> (r: i128)
        requires
            self.nodes_view().len() <= 0x1_0000_0000,
        ensures
            r == Self::cost_of(self.nodes_view(), self.nodes_view().len() as int),
    {
        let mut cost: i128 = 0;
        let mut i: usize = 0;
        while i < self.nodes.len()
            invariant
                i <= self.nodes@.len() <= 0x1_0000_0000,
                cost == Self::cost_of(self.nodes@, i as int),
                -(i * 0x80_0000_0000_0000_0000) <= cost <= i * 0x80_0000_0000_0000_0000,
            decreases self.nodes@.len() - i,
        {
            match &self.nodes[i] {
                BvhNode::Branch { bounds, .. } => {
                    let area = bounds.surface_area();
                    cost = cost + area;
                },
                BvhNode::Leaf { .. } => {},
            }
            i = i + 1;
        }
        cost
    }

    /// Every hit of the ray on the triangles, in no particular order: exactly the hits that
    /// testing every triangle on its own would find.
    pub fn intersects(&self, ray: &Ray) -> (r: Vec<Intersection>)
        requires
            self.wf(),
            in_grid(ray.origin),
            in_grid(ray.direction),
        ensures
            r@.to_set() == all_hits(self.triangles_view(), *ray),
            hits_listed(self.triangles_view(), *ray, r@, all_primitives(self.triangles_view().len())),
    {
        let mut intersections: Vec<Intersection> = Vec::new();
        if let Some(root) = self.root {
            self.intersect_recursive(root, ray, &mut intersections);
            proof {
                assert(intersections@.subrange(0, intersections@.len() as int) =~= intersections@);
                assert(intersections@.to_set() =~= all_hits(self.triangles@, *ray));
            }
        } else {
            proof {
                assert(intersections@.to_set() =~= all_hits(self.triangles@, *ray));
                lemma_hits_listed_empty(self.triangles@, *ray, all_primitives(self.triangles@.len()));
            }
        }
        intersections
    }

    /// Adds to `intersections` the hits of the ray on the triangles below node `index`.
    pub fn intersect_recursive(&self, index: usize, ray: &Ray, intersections: &mut Vec<Intersection>)
        requires
            self.wf(),
            index < self.nodes_view().len(),
            in_grid(ray.origin),
            in_grid(ray.direction),
        ensures
            final(intersections)@.to_set() == old(intersections)@.to_set().union(
                hits_in(self.triangles_view(), subtree(self.nodes_view(), index as int), *ray),
            ),
            final(intersections)@.len() >= old(intersections)@.len(),
            final(intersections)@.subrange(0, old(intersections)@.len() as int) == old(intersections)@,
            hits_listed(
                self.triangles_view(),
                *ray,
                final(intersections)@.subrange(old(intersections)@.len() as int, final(intersections)@.len() as int),
                subtree(self.nodes_view(), index as int),
            ),
        decreases index,
    {
        let ghost nodes = self.nodes@;
        let ghost tris = self.triangles@;
        let ghost start = intersections@;
        let ghost target = hits_in(tris, subtree(nodes, index as int), *ray);
        proof {
            assert(node_wf(nodes, tris, index as int));
        }
        match &self.nodes[index] {
            BvhNode::Branch { bounds, left, right } => {
                if bounds.intersects(ray) {
                    self.intersect_recursive(*left, ray, intersections);
                    let ghost mid = intersections@;
                    self.intersect_recursive(*right, ray, intersections);
                    proof {
                        let out = intersections@;
                        let a = mid.subrange(start.len() as int, mid.len() as int);
                        let b = out.subrange(mid.len() as int, out.len() as int);
                        assert(out.subrange(0, mid.len() as int) == mid);
                        assert(mid.subrange(0, start.len() as int) == start);
                        assert forall|i: int| 0 <= i < start.len() implies out[i] == start[i] by {
                            assert(out.subrange(0, mid.len() as int)[i] == out[i]);
                            assert(mid.subrange(0, start.len() as int)[i] == mid[i]);
                        }
                        assert(out.subrange(0, start.len() as int) =~= start);
                        assert forall|i: int| 0 <= i < out.len() - start.len() implies out.subrange(start.len() as int, out.len() as int)[i] == (a + b)[i] by {
                            if i < a.len() {
                                assert(out.subrange(0, mid.len() as int)[start.len() + i] == out[start.len() + i]);
                            }
                        }
                        assert(out.subrange(start.len() as int, out.len() as int) =~= a + b);
                        lemma_hits_listed_concat(tris, *ray, a, b, subtree(nodes, *left as int), subtree(nodes, *right as int));
                        lemma_hits_split(tris, subtree(nodes, *left as int), subtree(nodes, *right as int), *ray);
                        assert(subtree(nodes, index as int) == subtree(nodes, *left as int).union(subtree(nodes, *right as int)));
                        assert(intersections@.to_set() =~= start.to_set().union(target));
                    }
                } else {
                    proof {
                        assert(target =~= Set::empty()) by {
                            assert forall|h: Intersection| !target.contains(h) by {
                                if target.contains(h) {
                                    let p = choose|p: usize|
                                        #![trigger subtree(nodes, index as int).contains(p), tris[p as int]]
                                        subtree(nodes, index as int).contains(p) && p < tris.len()
                                            && ray_hits(tris[p as int], *ray) && h == hit_spec(
                                            tris[p as int],
                                            *ray,
                                        );
                                    lemma_subtree_in_box(nodes, tris, index as int, p);
                                    lemma_hit_crosses_box(tris[p as int], *ray, *bounds);
                                }
                            }
                        }
                        assert(intersections@.to_set() =~= start.to_set().union(target));
                        assert forall|p: usize| subtree(nodes, index as int).contains(p) implies !ray_hits(tris[p as int], *ray) by {
                            lemma_subtree_in_box(nodes, tris, index as int, p);
                            if ray_hits(tris[p as int], *ray) {
                                lemma_hit_crosses_box(tris[p as int], *ray, *bounds);
                            }
                        }
                        lemma_hits_listed_none(tris, *ray, subtree(nodes, index as int));
                        assert(intersections@.subrange(0, start.len() as int) =~= start);
                        assert(intersections@.subrange(start.len() as int, intersections@.len() as int) =~= Seq::<Intersection>::empty());
                    }
                }
            },
            BvhNode::Leaf { bounds, primitive } => {
                proof {
                    assert(tris[*primitive as int].wf());
                }
                if bounds.intersects(ray) {
                    if let Some(intersection) = self.triangles[*primitive].intersects(ray) {
                        intersections.push(intersection);
                        proof {
                            assert(intersections@ == start.push(intersection));
                            assert(target =~= set![intersection]) by {
                                assert(subtree(nodes, index as int) == set![*primitive]);
                                assert(set![*primitive].contains(*primitive));
                            }
                            lemma_push_to_set(start, intersection);
                            assert(intersections@.subrange(0, start.len() as int) =~= start);
                            assert(intersections@.subrange(start.len() as int, intersections@.len() as int) =~= seq![intersection]);
                            lemma_hits_listed_one(tris, *ray, *primitive);
                        }
                    } else {
                        proof {
                            assert(target =~= Set::empty());
                            assert(intersections@.to_set() =~= start.to_set().union(target));
                            assert(subtree(nodes, index as int) == set![*primitive]);
                            lemma_hits_listed_none(tris, *ray, subtree(nodes, index as int));
                            assert(intersections@.subrange(0, start.len() as int) =~= start);
                            assert(intersections@.subrange(start.len() as int, intersections@.len() as int) =~= Seq::<Intersection>::empty());
                        }
                    }
                } else {
                    proof {
                        assert(target =~= Set::empty()) by {
                            if ray_hits(tris[*primitive as int], *ray) {
                                lemma_hit_crosses_box(tris[*primitive as int], *ray, *bounds);
                            }
                        }
                        assert(intersections@.to_set() =~= start.to_set().union(target));
                        if ray_hits(tris[*primitive as int], *ray) {
                            lemma_hit_crosses_box(tris[*primitive as int], *ray, *bounds);
                        }
                        assert(subtree(nodes, index as int) == set![*primitive]);
                        lemma_hits_listed_none(tris, *ray, subtree(nodes, index as int));
                        assert(intersections@.subrange(0, start.len() as int) =~= start);
                        assert(intersections@.subrange(start.len() as int, intersections@.len() as int) =~= Seq::<Intersection>::empty());
                    }
                }
            },
        }
    }
}

/// Builds the hierarchy over a non-empty list of triangles.
pub fn build_bvh(triangles: Vec<Triangle>) -> (r: Bvh)
    requires
        triangles.len() >= 1,
        triangles.len() <= usize::MAX / 4,
        forall|i: int| 0 <= i < triangles.len() ==> (#[trigger] triangles[i]).wf(),
    ensures
        r.wf(),
        r.triangles_view() == triangles@,
        r.root_view() == Some((r.nodes_view().len() - 1) as usize),
        r.nodes_view().len() == 2 * triangles.len() - 1,
        is_join_of(
            r.nodes_view()[r.nodes_view().len() - 1].bounds_of(),
            triangles@,
            all_primitives(triangles.len() as nat),
        ),
        closed_range(r.nodes_view(), 0, r.nodes_view().len() as int),
{
    let mut boxes: Vec<Bounds> = Vec::new();
    let mut indices: Vec<usize> = Vec::new();
    let mut i: usize = 0;
    while i < triangles.len()
        invariant
            i <= triangles.len(),
            boxes.len() == i,
            indices.len() == i,
            forall|j: int| 0 <= j < i ==> #[trigger] boxes[j] == triangles[j].bounds_spec(),
            forall|j: int| 0 <= j < i ==> #[trigger] indices[j] == j,
        decreases triangles.len() - i,
    {
        boxes.push(triangles[i].get_bounds());
        indices.push(i);
        i = i + 1;
    }
    let mut nodes: Vec<BvhNode> = Vec::new();
    proof {
        assert(nodes_wf(nodes@, triangles@));
        assert(valid_primitives(indices@, triangles.len() as nat));
        assert forall|a: int, b: int| 0 <= a < indices.len() && 0 <= b < indices.len() && a != b implies indices@[a] != indices@[b] by {
            assert(indices@[a] == a && indices@[b] == b);
        }
    }
    let ghost index_set = indices@.to_set();
    let (root, _) = build_recursive(&triangles, &boxes, indices, &mut nodes);
    proof {
        assert(nodes@.subrange(0, 0) =~= Seq::<BvhNode>::empty());
        assert(index_set =~= all_primitives(triangles.len() as nat)) by {
            assert forall|p: usize| all_primitives(triangles.len() as nat).contains(p) implies index_set.contains(p) by {
                assert(indices@[p as int] == p);
            }
        }
    }
    Bvh::from_prebuilt(nodes, Some(root), triangles)
}

proof fn lemma_push_to_set<T>(s: Seq<T>, x: T)
    ensures
        s.push(x).to_set() == s.to_set().insert(x),
{
    let t = s.push(x);
    assert forall|y: T| t.to_set().contains(y) <==> s.to_set().insert(x).contains(y) by {
        if t.contains(y) {
            let i = choose|i: int| 0 <= i < t.len() && t[i] == y;
            if i < s.len() {
                assert(s[i] == y);
            }
        }
        if s.contains(y) {
            let i = choose|i: int| 0 <= i < s.len() && s[i] == y;
            assert(t[i] == y);
        }
        if y == x {
            assert(t[s.len() as int] == x);
        }
    }
    assert(t.to_set() =~= s.to_set().insert(x));
}

proof fn lemma_hits_split(tris: Seq<Triangle>, a: Set<usize>, b: Set<usize>, ray: Ray)
    ensures
        hits_in(tris, a.union(b), ray) == hits_in(tris, a, ray).union(hits_in(tris, b, ray)),
{
    let (u, ha, hb) = (hits_in(tris, a.union(b), ray), hits_in(tris, a, ray), hits_in(tris, b, ray));
    assert forall|h: Intersection| u.contains(h) <==> (ha.contains(h) || hb.contains(h)) by {
        if u.contains(h) {
            let p = choose|p: usize|
                #![trigger a.union(b).contains(p), tris[p as int]]
                a.union(b).contains(p) && p < tris.len() && ray_hits(tris[p as int], ray) && h
                    == hit_spec(tris[p as int], ray);
            if a.contains(p) {
                assert(ha.contains(h));
            } else {
                assert(hb.contains(h));
            }
        }
        if ha.contains(h) {
            let p = choose|p: usize|
                #![trigger a.contains(p), tris[p as int]]
                a.contains(p) && p < tris.len() && ray_hits(tris[p as int], ray) && h == hit_spec(
                    tris[p as int],
                    ray,
                );
            assert(a.union(b).contains(p));
        }
        if hb.contains(h) {
            let p = choose|p: usize|
                #![trigger b.contains(p), tris[p as int]]
                b.contains(p) && p < tris.len() && ray_hits(tris[p as int], ray) && h == hit_spec(
                    tris[p as int],
                    ray,
                );
            assert(a.union(b).contains(p));
        }
    }
    assert(u =~= ha.union(hb));
}

/// A box that the ray's line misses holds no triangle that the ray hits: when
/// `Bounds::intersects` says no, nothing inside the box needs testing.
pub proof fn lemma_box_miss_means_no_hit(b: Bounds, tri: Triangle, ray: Ray)
    requires
        b.contains_box(tri.bounds_spec()),
        !b.slabs_meet(ray),
    ensures
        !ray_hits(tri, ray),
{
    if ray_hits(tri, ray) {
        lemma_hit_crosses_box(tri, ray, b);
    }
}

/// The primitives still to come from a traversal whose stack holds `stack`: those below
/// a stacked node whose boxes overlap `query`.
pub open spec fn pending(nodes: Seq<BvhNode>, tris: Seq<Triangle>, stack: Seq<usize>, query: Bounds) -> Set<usize>
    decreases stack.len(),
{
    if stack.len() == 0 {
        Set::empty()
    } else {
        pending(nodes, tris, stack.drop_last(), query).union(
            subtree(nodes, stack.last() as int).intersect(overlapping(tris, query)),
        )
    }
}

/// A weight that halves, and more, from a node to each of its children.
pub open spec fn node_weight(i: int) -> nat
    decreases i,
{
    if i <= 0 {
        1
    } else {
        3 * node_weight(i - 1)
    }
}

pub open spec fn stack_weight(stack: Seq<usize>) -> nat
    decreases stack.len(),
{
    if stack.len() == 0 {
        0
    } else {
        stack_weight(stack.drop_last()) + node_weight(stack.last() as int)
    }
}

proof fn lemma_weight_grows(a: int, b: int)
    requires
        0 <= a <= b,
    ensures
        node_weight(a) <= node_weight(b),
    decreases b - a,
{
    if a < b {
        lemma_weight_grows(a, b - 1);
    }
}

/// The subtrees below the stacked nodes share no primitive.
pub open spec fn stack_disjoint(nodes: Seq<BvhNode>, stack: Seq<usize>) -> bool {
    forall|i: int, j: int|
        0 <= i < j < stack.len() ==> #[trigger] subtree(nodes, stack[i] as int).disjoint(
            #[trigger] subtree(nodes, stack[j] as int),
        )
}

proof fn lemma_pending_member(nodes: Seq<BvhNode>, tris: Seq<Triangle>, stack: Seq<usize>, query: Bounds, x: usize)
    requires
        pending(nodes, tris, stack, query).contains(x),
    ensures
        exists|k: int| 0 <= k < stack.len() && #[trigger] subtree(nodes, stack[k] as int).contains(x),
    decreases stack.len(),
{
    let last = stack.len() - 1;
    if pending(nodes, tris, stack.drop_last(), query).contains(x) {
        lemma_pending_member(nodes, tris, stack.drop_last(), query, x);
        let k = choose|k: int| 0 <= k < stack.drop_last().len() && #[trigger] subtree(nodes, stack.drop_last()[k] as int).contains(x);
        assert(stack.drop_last()[k] == stack[k]);
    } else {
        assert(subtree(nodes, stack[last] as int).contains(x));
    }
}

/// A lazy traversal of the nodes whose boxes overlap a query box.
pub struct BvhIterator<'a> {
    bvh: &'a Bvh,
    query: Bounds,
    stack: Vec<usize>,
}

impl<'a> BvhIterator<'a> {
    pub closed spec fn bvh_view(&self) -> Bvh {
        *self.bvh
    }

    pub closed spec fn query_view(&self) -> Bounds {
        self.query
    }

    /// The primitives that the traversal has yet to yield.
    pub closed spec fn remaining(&self) -> Set<usize> {
        pending(self.bvh.nodes@, self.bvh.triangles@, self.stack@, self.query)
    }

    /// A measure of the work left, which every call of `next` that yields reduces.
    pub closed spec fn progress(&self) -> nat {
        stack_weight(self.stack@)
    }

    pub closed spec fn wf(&self) -> bool {
        &&& self.bvh.wf()
        &&& forall|k: int| 0 <= k < self.stack.len() ==> #[trigger] self.stack@[k] < self.bvh.nodes@.len()
        &&& stack_disjoint(self.bvh.nodes@, self.stack@)
    }

    /// A traversal from the given stack of nodes.
    pub fn new(bvh: &'a Bvh, query: Bounds, stack: Vec<usize>) -> (r: Self)
        requires
            bvh.wf(),
            forall|k: int| 0 <= k < stack.len() ==> #[trigger] stack@[k] < bvh.nodes_view().len(),
            stack_disjoint(bvh.nodes_view(), stack@),
        ensures
            r.wf(),
            r.bvh_view() == *bvh,
            r.query_view() == query,
            r.remaining() == pending(bvh.nodes_view(), bvh.triangles_view(), stack@, query),
    {
        Self { bvh, query, stack }
    }

    pub fn get_triangle(&self, index: usize) -> (r: &Triangle)
        requires
            index < self.bvh_view().triangles_view().len(),
        ensures
            *r == self.bvh_view().triangles_view()[index as int],
    {
        self.bvh.get_primitive(index)
    }

    /// The next primitive whose box overlaps the query, or `None` once there are no more.
    pub fn next(&mut self) -> (r: Option<usize>)
        requires
            old(self).wf(),
        ensures
            final(self).wf(),
            final(self).bvh_view() == old(self).bvh_view(),
            final(self).query_view() == old(self).query_view(),
            r matches None ==> old(self).remaining() == Set::<usize>::empty() && final(self).remaining()
                == Set::<usize>::empty(),
            r matches Some(p) ==> old(self).remaining().contains(p) && old(self).remaining()
                == final(self).remaining().insert(p) && final(self).progress() < old(self).progress()
                && p < final(self).bvh_view().triangles_view().len() && !final(self).remaining().contains(p),
    {
        let ghost nodes = self.bvh.nodes@;
        let ghost tris = self.bvh.triangles@;
        let ghost start = self.remaining();
        while self.stack.len() > 0
            invariant
                self.wf(),
                self.bvh == old(self).bvh,
                self.query == old(self).query,
                nodes == self.bvh.nodes@,
                tris == self.bvh.triangles@,
                self.remaining() == start,
                start == old(self).remaining(),
                stack_weight(self.stack@) <= stack_weight(old(self).stack@),
            decreases stack_weight(self.stack@),
        {
            let ghost before = self.stack@;
            let index = self.stack.pop().unwrap();
            proof {
                assert(before.drop_last() == self.stack@);
                assert(before.last() == index);
                assert(before[before.len() - 1] == index);
                assert(node_wf(nodes, tris, index as int));
                assert(stack_weight(before) == stack_weight(self.stack@) + node_weight(index as int));
                lemma_weight_grows(0, index as int);
                assert forall|i: int, j: int| 0 <= i < j < self.stack@.len() implies #[trigger] subtree(nodes, self.stack@[i] as int).disjoint(
                    #[trigger] subtree(nodes, self.stack@[j] as int)) by {
                    assert(self.stack@[i] == before[i] && self.stack@[j] == before[j]);
                    assert(subtree(nodes, before[i] as int).disjoint(subtree(nodes, before[j] as int)));
                }
            }
            match &self.bvh.nodes[index] {
                BvhNode::Branch { bounds, left, right } => {
                    if bounds.overlaps(&self.query) {
                        let ghost mid = self.stack@;
                        self.stack.push(*left);
                        self.stack.push(*right);
                        proof {
                            let s1 = mid.push(*left);
                            assert(self.stack@ == s1.push(*right));
                            assert(self.stack@.drop_last() == s1);
                            assert(s1.drop_last() == mid);
                            let q = self.query;
                            assert(subtree(nodes, index as int) == subtree(nodes, *left as int).union(subtree(nodes, *right as int)));
                            assert(pending(nodes, tris, self.stack@, q) == pending(nodes, tris, s1, q).union(subtree(nodes, *right as int).intersect(overlapping(tris, q))));
                            assert(pending(nodes, tris, s1, q) == pending(nodes, tris, mid, q).union(subtree(nodes, *left as int).intersect(overlapping(tris, q))));
                            assert(pending(nodes, tris, before, q) == pending(nodes, tris, mid, q).union(subtree(nodes, index as int).intersect(overlapping(tris, q))));
                            assert(pending(nodes, tris, self.stack@, q) =~= pending(nodes, tris, before, q));
                            lemma_weight_grows(*left as int, index - 1);
                            lemma_weight_grows(*right as int, index - 1);
                            lemma_weight_grows(0, index - 1);
                            assert(node_weight(index as int) == 3 * node_weight(index - 1));
                            assert(stack_weight(self.stack@) == stack_weight(s1) + node_weight(*right as int));
                            assert(stack_weight(s1) == stack_weight(mid) + node_weight(*left as int));
                            assert(stack_weight(before) == stack_weight(mid) + node_weight(index as int));
                            assert(stack_weight(self.stack@) < stack_weight(before));
                            let st = self.stack@;
                            let last = before.len() - 1;
                            assert forall|i: int, j: int| 0 <= i < j < st.len() implies #[trigger] subtree(nodes, st[i] as int).disjoint(
                                #[trigger] subtree(nodes, st[j] as int)) by {
                                let (sl, sr) = (subtree(nodes, *left as int), subtree(nodes, *right as int));
                                if j < mid.len() {
                                    assert(st[i] == before[i] && st[j] == before[j]);
                                    assert(subtree(nodes, before[i] as int).disjoint(subtree(nodes, before[j] as int)));
                                } else if i < mid.len() {
                                    assert(st[i] == before[i]);
                                    assert(subtree(nodes, before[i] as int).disjoint(subtree(nodes, before[last] as int)));
                                    assert(st[j] == *left || st[j] == *right);
                                } else {
                                    assert(st[i] == *left && st[j] == *right);
                                }
                            }
                        }
                    } else {
                        proof {
                            assert(subtree(nodes, index as int).intersect(overlapping(tris, self.query))
                                =~= Set::empty()) by {
                                assert forall|p: usize| #[trigger]
                                    subtree(nodes, index as int).contains(p) implies !overlapping(
                                    tris,
                                    self.query,
                                ).contains(p) by {
                                    lemma_subtree_in_box(nodes, tris, index as int, p);
                                    if tris[p as int].bounds_spec().overlaps_spec(self.query) {
                                        lemma_overlap_grows(*bounds, tris[p as int].bounds_spec(), self.query);
                                    }
                                }
                            }
                            assert(pending(nodes, tris, self.stack@, self.query) =~= pending(nodes, tris, before, self.query));
                        }
                    }
                },
                BvhNode::Leaf { bounds, primitive } => {
                    if bounds.overlaps(&self.query) {
                        proof {
                            assert(subtree(nodes, index as int) == set![*primitive]);
                            assert(subtree(nodes, index as int).intersect(overlapping(tris, self.query))
                                =~= set![*primitive]);
                            assert(start =~= self.remaining().insert(*primitive));
                            if self.remaining().contains(*primitive) {
                                lemma_pending_member(nodes, tris, self.stack@, self.query, *primitive);
                                let k = choose|k: int| 0 <= k < self.stack@.len() && #[trigger] subtree(nodes, self.stack@[k] as int).contains(*primitive);
                                assert(self.stack@[k] == before[k]);
                                assert(subtree(nodes, before[k] as int).disjoint(subtree(nodes, before[before.len() - 1] as int)));
                            }
                        }
                        return Some(*primitive);
                    } else {
                        proof {
                            assert(subtree(nodes, index as int).intersect(overlapping(tris, self.query))
                                =~= Set::empty());
                            assert(pending(nodes, tris, self.stack@, self.query) =~= pending(nodes, tris, before, self.query));
                        }
                    }
                },
            }
        }
        proof {
            assert(self.stack@.len() == 0);
        }
        None
    }
}

impl Bvh {
    /// A lazy form of `query_bounds`: a fresh traversal that yields, one call of `next` at
    /// a time, exactly the triangles whose boxes overlap `query`.
    pub fn query_bounds_iter(&self, query: Bounds) -> (r: BvhIterator<'_>)
        requires
            self.wf(),
        ensures
            r.wf(),
            r.bvh_view() == *self,
            r.query_view() == query,
            r.remaining() == overlapping(self.triangles_view(), query),
    {
        let mut stack: Vec<usize> = Vec::new();
        if let Some(root) = self.root {
            stack.push(root);
            proof {
                assert(stack@.drop_last() =~= Seq::<usize>::empty());
                assert(stack@.last() == root);
                assert(pending(self.nodes@, self.triangles@, stack@, query) == pending(self.nodes@, self.triangles@, Seq::<usize>::empty(), query).union(
                    subtree(self.nodes@, root as int).intersect(overlapping(self.triangles@, query))));
                assert(pending(self.nodes@, self.triangles@, stack@, query) =~= overlapping(self.triangles@, query));
            }
        } else {
            proof {
                assert(pending(self.nodes@, self.triangles@, stack@, query) =~= overlapping(self.triangles@, query));
            }
        }
        BvhIterator::new(self, query, stack)
    }
}

/// How many leaves below node `i` hold primitive `p`.
pub open spec fn leaf_count(nodes: Seq<BvhNode>, i: int, p: usize) -> nat
    decreases i,
{
    if 0 <= i < nodes.len() {
        match nodes[i] {
            BvhNode::Leaf { primitive, .. } => if primitive == p {
                1
            } else {
                0
            },
            BvhNode::Branch { left, right, .. } => {
                if left < i && right < i {
                    leaf_count(nodes, left as int, p) + leaf_count(nodes, right as int, p)
                } else {
                    0
                }
            },
        }
    } else {
        0
    }
}

proof fn lemma_leaf_count(nodes: Seq<BvhNode>, tris: Seq<Triangle>, i: int, p: usize)
    requires
        nodes_wf(nodes, tris),
        0 <= i < nodes.len(),
    ensures
        leaf_count(nodes, i, p) == (if subtree(nodes, i).contains(p) {
            1nat
        } else {
            0nat
        }),
    decreases i,
{
    assert(node_wf(nodes, tris, i));
    match nodes[i] {
        BvhNode::Leaf { .. } => {},
        BvhNode::Branch { left, right, .. } => {
            lemma_leaf_count(nodes, tris, left as int, p);
            lemma_leaf_count(nodes, tris, right as int, p);
            assert(!(subtree(nodes, left as int).contains(p) && subtree(nodes, right as int).contains(p)));
        },
    }
}

/// In a well-formed hierarchy, every triangle sits in exactly one leaf below the root.
pub proof fn lemma_each_primitive_one_leaf(bvh: Bvh, p: usize)
    requires
        bvh.wf(),
        p < bvh.triangles_view().len(),
    ensures
        bvh.root_view() matches Some(root) && leaf_count(bvh.nodes_view(), root as int, p) == 1,
{
    let root = bvh.root_view()->Some_0;
    assert(all_primitives(bvh.triangles_view().len()).contains(p));
    lemma_leaf_count(bvh.nodes_view(), bvh.triangles_view(), root as int, p);
}

/// Two sequences without duplicates whose elements come from disjoint sets join into one
/// without duplicates, whose set is the union.
proof fn lemma_concat_disjoint<T>(a: Seq<T>, b: Seq<T>, sa: Set<T>, sb: Set<T>)
    requires
        a.no_duplicates(),
        b.no_duplicates(),
        a.to_set() == sa,
        b.to_set() == sb,
        sa.disjoint(sb),
    ensures
        (a + b).no_duplicates(),
        (a + b).to_set() == sa.union(sb),
{
    let c = a + b;
    assert forall|i: int, j: int| 0 <= i < c.len() && 0 <= j < c.len() && i != j implies c[i] != c[j] by {
        if i < a.len() && j < a.len() {
        } else if i >= a.len() && j >= a.len() {
            assert(c[i] == b[i - a.len()] && c[j] == b[j - a.len()]);
        } else if i < a.len() {
            assert(a.to_set().contains(a[i]));
            assert(b.to_set().contains(b[j - a.len()]));
        } else {
            assert(a.to_set().contains(a[j]));
            assert(b.to_set().contains(b[i - a.len()]));
        }
    }
    assert forall|x: T| c.to_set().contains(x) <==> sa.union(sb).contains(x) by {
        if c.contains(x) {
            let i = choose|i: int| 0 <= i < c.len() && c[i] == x;
            if i < a.len() {
                assert(a.contains(x));
            } else {
                assert(b[i - a.len()] == x);
                assert(b.contains(x));
            }
        }
        if a.contains(x) {
            let i = choose|i: int| 0 <= i < a.len() && a[i] == x;
            assert(c[i] == x);
        }
        if b.contains(x) {
            let i = choose|i: int| 0 <= i < b.len() && b[i] == x;
            assert(c[i + a.len()] == x);
        }
    }
    assert(c.to_set() =~= sa.union(sb));
}

/// The triangles that the ray hits.
pub open spec fn hit_prims(tris: Seq<Triangle>, ray: Ray) -> Set<usize> {
    Set::new(|p: usize| p < tris.len() && ray_hits(tris[p as int], ray))
}

/// The hits of the ray on the triangles `order`, in that order.
pub open spec fn hits_for(tris: Seq<Triangle>, ray: Ray, order: Seq<usize>) -> Seq<Intersection> {
    order.map_values(|p: usize| hit_spec(tris[p as int], ray))
}

/// `hs` lists the hits of the ray on the triangles of `ps`, one for each triangle hit.
pub open spec fn hits_listed(tris: Seq<Triangle>, ray: Ray, hs: Seq<Intersection>, ps: Set<usize>) -> bool {
    exists|order: Seq<usize>|
        #[trigger] hits_for(tris, ray, order) == hs && order.no_duplicates() && order.to_set()
            == ps.intersect(hit_prims(tris, ray))
}

proof fn lemma_hits_listed_none(tris: Seq<Triangle>, ray: Ray, ps: Set<usize>)
    requires
        forall|p: usize| ps.contains(p) ==> !ray_hits(tris[p as int], ray),
    ensures
        hits_listed(tris, ray, Seq::empty(), ps),
{
    let e = Seq::<usize>::empty();
    assert(hits_for(tris, ray, e) =~= Seq::<Intersection>::empty());
    assert(e.to_set() =~= ps.intersect(hit_prims(tris, ray)));
}

proof fn lemma_hits_listed_empty(tris: Seq<Triangle>, ray: Ray, ps: Set<usize>)
    requires
        tris.len() == 0,
    ensures
        hits_listed(tris, ray, Seq::empty(), ps),
{
    let e = Seq::<usize>::empty();
    assert(hits_for(tris, ray, e) =~= Seq::<Intersection>::empty());
    assert(e.to_set() =~= ps.intersect(hit_prims(tris, ray)));
}

proof fn lemma_hits_listed_one(tris: Seq<Triangle>, ray: Ray, p: usize)
    requires
        p < tris.len(),
        ray_hits(tris[p as int], ray),
    ensures
        hits_listed(tris, ray, seq![hit_spec(tris[p as int], ray)], set![p]),
{
    let o = seq![p];
    assert(hits_for(tris, ray, o) =~= seq![hit_spec(tris[p as int], ray)]);
    assert(o.to_set() =~= set![p].intersect(hit_prims(tris, ray))) by {
        assert(o[0] == p);
        assert(o.contains(p));
    }
}

proof fn lemma_hits_listed_concat(
    tris: Seq<Triangle>,
    ray: Ray,
    a: Seq<Intersection>,
    b: Seq<Intersection>,
    pa: Set<usize>,
    pb: Set<usize>,
)
    requires
        hits_listed(tris, ray, a, pa),
        hits_listed(tris, ray, b, pb),
        pa.disjoint(pb),
    ensures
        hits_listed(tris, ray, a + b, pa.union(pb)),
{
    let h = hit_prims(tris, ray);
    let oa = choose|o: Seq<usize>| #[trigger] hits_for(tris, ray, o) == a && o.no_duplicates() && o.to_set() == pa.intersect(h);
    let ob = choose|o: Seq<usize>| #[trigger] hits_for(tris, ray, o) == b && o.no_duplicates() && o.to_set() == pb.intersect(h);
    lemma_concat_disjoint(oa, ob, pa.intersect(h), pb.intersect(h));
    assert(hits_for(tris, ray, oa + ob) =~= a + b);
    assert(pa.intersect(h).union(pb.intersect(h)) =~= pa.union(pb).intersect(h));
}

} // verus!
