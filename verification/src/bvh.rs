use vstd::prelude::*;
use vstd::seq_lib::lemma_multiset_commutative;

use crate::arena::AtomicArena;
use crate::geom::{Aabb, Axis, GridVec, COORD_LIMIT};

verus! {

/// How many centroid buckets the surface-area heuristic considers per split.
pub const OBJECT_BUCKETS: usize = 32;

/// A reference pairs a primitive's position in the mesh with its bounding box.
#[derive(Debug, Clone, Copy, PartialEq, Eq, Structural)]
pub struct Reference {
    pub prim_idx: usize,
    pub bounding_box: Aabb,
}

/// A node of the hierarchy: either an interior node holding the arena indices
/// of its two children, or a leaf holding the references it bounds.
pub enum SbvhNode {
    Node { lhs: usize, rhs: usize },
    Leaf { refs: Vec<Reference> },
}

/// An arena is well formed when every interior node points strictly backwards
/// (children are pushed before their parent) and every leaf holds a reference.
pub open spec fn arena_wf(nodes: Seq<SbvhNode>) -> bool {
    forall|i: int|
        0 <= i < nodes.len() ==> match #[trigger] nodes[i] {
            SbvhNode::Node { lhs, rhs } => lhs < i && rhs < i,
            SbvhNode::Leaf { refs } => refs@.len() >= 1,
        }
}

/// The references reachable from node `i`, leaves left to right.
pub open spec fn tree_refs(nodes: Seq<SbvhNode>, i: int) -> Seq<Reference>
    decreases i,
{
    if 0 <= i < nodes.len() {
        match nodes[i] {
            SbvhNode::Leaf { refs } => refs@,
            SbvhNode::Node { lhs, rhs } => if lhs < i && rhs < i {
                tree_refs(nodes, lhs as int) + tree_refs(nodes, rhs as int)
            } else {
                Seq::empty()
            },
        }
    } else {
        Seq::empty()
    }
}

/// Appending nodes to the arena does not change what older nodes reach.
pub proof fn lemma_tree_refs_frame(nodes1: Seq<SbvhNode>, nodes2: Seq<SbvhNode>, i: int)
    requires
        nodes1.len() <= nodes2.len(),
        forall|j: int| 0 <= j < nodes1.len() ==> nodes2[j] == nodes1[j],
        i < nodes1.len(),
    ensures
        tree_refs(nodes2, i) == tree_refs(nodes1, i),
    decreases i,
{
    if 0 <= i {
        match nodes1[i] {
            SbvhNode::Leaf { refs } => {},
            SbvhNode::Node { lhs, rhs } => {
                if lhs < i && rhs < i {
                    lemma_tree_refs_frame(nodes1, nodes2, lhs as int);
                    lemma_tree_refs_frame(nodes1, nodes2, rhs as int);
                }
            },
        }
    }
}

/// In a well-formed arena every subtree reaches at least one reference.
pub proof fn lemma_tree_refs_nonempty(nodes: Seq<SbvhNode>, i: int)
    requires
        arena_wf(nodes),
        0 <= i < nodes.len(),
    ensures
        tree_refs(nodes, i).len() >= 1,
    decreases i,
{
    match nodes[i] {
        SbvhNode::Leaf { refs } => {},
        SbvhNode::Node { lhs, rhs } => {
            lemma_tree_refs_nonempty(nodes, lhs as int);
            lemma_tree_refs_nonempty(nodes, rhs as int);
        },
    }
}

/// The index at which each reference lands when references are cut into
/// `OBJECT_BUCKETS` uniform slabs of the parent box along `axis`.  The
/// comparison point for a reference is the midpoint of its own box; the
/// result is clamped into range.
pub open spec fn spec_bucket(r: Reference, total: Aabb, axis: Axis) -> int {
    let c2 = r.bounding_box.min.spec_axis(axis) + r.bounding_box.max.spec_axis(axis);
    let min2 = 2 * total.min.spec_axis(axis);
    let ext2 = 2 * (total.max.spec_axis(axis) - total.min.spec_axis(axis));
    if ext2 <= 0 || c2 <= min2 {
        0
    } else {
        let b = (c2 - min2) * (OBJECT_BUCKETS as int) / ext2;
        if b >= OBJECT_BUCKETS {
            OBJECT_BUCKETS - 1
        } else {
            b
        }
    }
}

/// The predicate that sends an index to the left side of a cut.
pub open spec fn below_cut(
    refs: Seq<Reference>,
    total: Aabb,
    axis: Axis,
    cut: int,
) -> spec_fn(usize) -> bool {
    |k: usize| spec_bucket(refs[k as int], total, axis) < cut
}

/// The complement predicate of `below_cut`.
pub open spec fn at_or_above_cut(
    refs: Seq<Reference>,
    total: Aabb,
    axis: Axis,
    cut: int,
) -> spec_fn(usize) -> bool {
    |k: usize| !(spec_bucket(refs[k as int], total, axis) < cut)
}

/// What the two cut predicates say of a single index.
proof fn lemma_cut_apply(refs: Seq<Reference>, total: Aabb, axis: Axis, cut: int, k: usize)
    ensures
        below_cut(refs, total, axis, cut)(k) == (spec_bucket(refs[k as int], total, axis) < cut),
        at_or_above_cut(refs, total, axis, cut)(k) == !(spec_bucket(refs[k as int], total, axis)
            < cut),
{
}

/// The bucket a reference falls into, as `spec_bucket` describes.
fn bucket_index(r: &Reference, total: &Aabb, axis: Axis) -> (b: usize)
    requires
        r.bounding_box.wf(),
        total.wf(),
    ensures
        b == spec_bucket(*r, *total, axis),
        b < OBJECT_BUCKETS,
{
    proof {
        assert(-COORD_LIMIT <= r.bounding_box.min.spec_axis(axis) <= COORD_LIMIT
            && -COORD_LIMIT <= r.bounding_box.max.spec_axis(axis) <= COORD_LIMIT && -COORD_LIMIT
            <= total.min.spec_axis(axis) <= COORD_LIMIT && -COORD_LIMIT <= total.max.spec_axis(
            axis,
        ) <= COORD_LIMIT);
    }
    let c2: i64 = r.bounding_box.min.axis(axis) + r.bounding_box.max.axis(axis);
    let min2: i64 = 2 * total.min.axis(axis);
    let ext2: i64 = 2 * (total.max.axis(axis) - total.min.axis(axis));
    if ext2 <= 0 || c2 <= min2 {
        0
    } else {
        let b: i64 = (c2 - min2) * (OBJECT_BUCKETS as i64) / ext2;
        proof {
            assert(0 <= (c2 - min2) as int * (OBJECT_BUCKETS as int) / (ext2 as int) <= (c2
                - min2) as int * (OBJECT_BUCKETS as int)) by (nonlinear_arith)
                requires
                    (c2 - min2) as int > 0,
                    (ext2) as int > 0,
            ;
        }
        if b >= OBJECT_BUCKETS as i64 {
            OBJECT_BUCKETS - 1
        } else {
            b as usize
        }
    }
}

/// Emit a leaf holding the referenced entries, in input order.
fn create_leaf(
    refs: &Vec<Reference>,
    idxs: &Vec<usize>,
    output: &mut AtomicArena<SbvhNode>,
) -> (root: usize)
    requires
        idxs@.len() >= 1,
        forall|k: int| 0 <= k < idxs@.len() ==> idxs@[k] < refs@.len(),
        arena_wf(old(output)@),
    ensures
        arena_wf(final(output)@),
        final(output)@.len() == old(output)@.len() + 1,
        root == old(output)@.len(),
        forall|j: int| 0 <= j < old(output)@.len() ==> final(output)@[j] == old(output)@[j],
        tree_refs(final(output)@, root as int) =~= idxs@.map_values(|k: usize| refs@[k as int]),
{
    let ghost target = idxs@.map_values(|k: usize| refs@[k as int]);
    let mut leaf_refs: Vec<Reference> = Vec::new();
    let mut i: usize = 0;
    while i < idxs.len()
        invariant
            i <= idxs@.len(),
            forall|k: int| 0 <= k < idxs@.len() ==> idxs@[k] < refs@.len(),
            leaf_refs@ =~= idxs@.take(i as int).map_values(|k: usize| refs@[k as int]),
        decreases idxs@.len() - i,
    {
        leaf_refs.push(refs[idxs[i]]);
        proof {
            assert(idxs@.take(i + 1 as int) =~= idxs@.take(i as int).push(idxs@[i as int]));
            idxs@.take(i as int).lemma_push_map_commute(
                |k: usize| refs@[k as int],
                idxs@[i as int],
            );
        }
        i += 1;
    }
    proof {
        assert(idxs@.take(idxs@.len() as int) =~= idxs@);
    }
    let root = output.push(SbvhNode::Leaf { refs: leaf_refs });
    proof {
        assert(forall|j: int|
            0 <= j < old(output)@.len() ==> output@[j] == old(output)@[j]);
        assert(tree_refs(output@, root as int) =~= target);
    }
    root
}

/// Partition an index list by bucket: indices whose bucket lies left of the
/// cut keep their order on the left, the rest keep their order on the right.
fn object_split(
    refs: &Vec<Reference>,
    total: &Aabb,
    input: &Vec<usize>,
    axis: Axis,
    cut: usize,
) -> (out: (Vec<usize>, Vec<usize>))
    requires
        total.wf(),
        forall|j: int| 0 <= j < refs@.len() ==> (#[trigger] refs@[j]).bounding_box.wf(),
        forall|k: int| 0 <= k < input@.len() ==> input@[k] < refs@.len(),
    ensures
        out.0@ == input@.filter(below_cut(refs@, *total, axis, cut as int)),
        out.1@ == input@.filter(at_or_above_cut(refs@, *total, axis, cut as int)),
{
    let mut lefts: Vec<usize> = Vec::new();
    let mut rights: Vec<usize> = Vec::new();
    let mut i: usize = 0;
    while i < input.len()
        invariant
            i <= input@.len(),
            total.wf(),
            forall|j: int| 0 <= j < refs@.len() ==> (#[trigger] refs@[j]).bounding_box.wf(),
            forall|k: int| 0 <= k < input@.len() ==> input@[k] < refs@.len(),
            lefts@ == input@.take(i as int).filter(below_cut(refs@, *total, axis, cut as int)),
            rights@ == input@.take(i as int).filter(
                at_or_above_cut(refs@, *total, axis, cut as int),
            ),
        decreases input@.len() - i,
    {
        let ghost pred = below_cut(refs@, *total, axis, cut as int);
        let ghost npred = at_or_above_cut(refs@, *total, axis, cut as int);
        let idx = input[i];
        let b = bucket_index(&refs[idx], total, axis);
        proof {
            assert(input@.take(i + 1 as int) =~= input@.take(i as int).push(input@[i as int]));
            input@.take(i as int).lemma_filter_push(input@[i as int], pred);
            input@.take(i as int).lemma_filter_push(input@[i as int], npred);
            lemma_cut_apply(refs@, *total, axis, cut as int, input@[i as int]);
        }
        if b < cut {
            lefts.push(idx);
        } else {
            rights.push(idx);
        }
        i += 1;
    }
    proof {
        assert(input@.take(input@.len() as int) =~= input@);
    }
    (lefts, rights)
}

/// All boxes reachable from node `i` are well formed.
pub open spec fn tree_boxes_wf(nodes: Seq<SbvhNode>, i: int) -> bool {
    forall|k: int|
        0 <= k < tree_refs(nodes, i).len() ==> (#[trigger] tree_refs(nodes, i)[k]).bounding_box.wf()
}

/// The union of all boxes in a non-empty run of references; folded from the left.
pub open spec fn boxes_union(s: Seq<Reference>) -> Aabb
    decreases s.len(),
{
    if s.len() <= 1 {
        if s.len() == 1 {
            s[0].bounding_box
        } else {
            Aabb { min: GridVec { x: 0, y: 0, z: 0 }, max: GridVec { x: 0, y: 0, z: 0 } }
        }
    } else {
        boxes_union(s.drop_last()).spec_union(s.last().bounding_box)
    }
}

/// The united box contains every member box, and is well formed when they are.
pub proof fn lemma_boxes_union_contains(s: Seq<Reference>)
    requires
        s.len() >= 1,
    ensures
        forall|k: int|
            0 <= k < s.len() ==> boxes_union(s).contains_box(
                (#[trigger] s[k]).bounding_box,
            ),
        (forall|k: int| 0 <= k < s.len() ==> (#[trigger] s[k]).bounding_box.wf())
            ==> boxes_union(s).wf(),
    decreases s.len(),
{
    if s.len() > 1 {
        let init = s.drop_last();
        let last = s.last().bounding_box;
        lemma_boxes_union_contains(init);
        Aabb::lemma_union_contains(boxes_union(init), last);
        assert forall|k: int| 0 <= k < s.len() implies boxes_union(s).contains_box(
            (#[trigger] s[k]).bounding_box,
        ) by {
            if k < s.len() - 1 {
                assert(init[k] == s[k]);
                Aabb::lemma_contains_trans(boxes_union(s), boxes_union(init), s[k].bounding_box);
            }
        }
        if forall|k: int| 0 <= k < s.len() ==> (#[trigger] s[k]).bounding_box.wf() {
            assert(forall|k: int| 0 <= k < init.len() ==> (#[trigger] init[k]).bounding_box.wf());
            assert(boxes_union(init).wf());
            assert(s[s.len() - 1].bounding_box.wf());
        }
    }
}

/// Folding a union over a concatenation folds over each part.
pub proof fn lemma_boxes_union_concat(a: Seq<Reference>, b: Seq<Reference>)
    requires
        a.len() >= 1,
        b.len() >= 1,
    ensures
        boxes_union(a + b) == boxes_union(a).spec_union(boxes_union(b)),
    decreases b.len(),
{
    if b.len() == 1 {
        assert((a + b).drop_last() =~= a);
        assert((a + b).last() == b[0]);
    } else {
        lemma_boxes_union_concat(a, b.drop_last());
        assert((a + b).drop_last() =~= a + b.drop_last());
        assert((a + b).last() == b.last());
    }
}

/// A filtered partition, mapped: the two halves together carry the same
/// mapped elements as the whole, as multisets.
pub proof fn lemma_filter_partition_map<A, B>(
    s: Seq<A>,
    p: spec_fn(A) -> bool,
    q: spec_fn(A) -> bool,
    f: spec_fn(A) -> B,
)
    requires
        forall|x: A| #[trigger] q(x) == !p(x),
    ensures
        s.filter(p).map_values(f).to_multiset().add(
            s.filter(q).map_values(f).to_multiset(),
        ) =~= s.map_values(f).to_multiset(),
    decreases s.len(),
{
    broadcast use vstd::seq_lib::group_seq_properties;
    broadcast use vstd::multiset::group_multiset_axioms;

    if s.len() == 0 {
        assert(s.filter(p) =~= Seq::<A>::empty());
        assert(s.filter(q) =~= Seq::<A>::empty());
        assert(s.map_values(f) =~= Seq::<B>::empty());
        assert(Seq::<A>::empty().map_values(f) =~= Seq::<B>::empty());
    } else {
        let init = s.drop_last();
        let last = s.last();
        lemma_filter_partition_map(init, p, q, f);
        assert(s =~= init.push(last));
        init.lemma_filter_push(last, p);
        init.lemma_filter_push(last, q);
        init.lemma_push_map_commute(f, last);
        init.filter(p).lemma_push_map_commute(f, last);
        init.filter(q).lemma_push_map_commute(f, last);
    }
}

/// The predicate that picks out one bucket's references.
pub open spec fn in_bucket(
    refs: Seq<Reference>,
    total: Aabb,
    axis: Axis,
    b: int,
) -> spec_fn(usize) -> bool {
    |k: usize| spec_bucket(refs[k as int], total, axis) == b
}

/// What `in_bucket` says of a single index.
proof fn lemma_in_bucket_apply(refs: Seq<Reference>, total: Aabb, axis: Axis, b: int, k: usize)
    ensures
        in_bucket(refs, total, axis, b)(k) == (spec_bucket(refs[k as int], total, axis) == b),
{
}

/// Taking one more input entry extends exactly that entry's bucket.
proof fn lemma_bucket_step(
    refs: Seq<Reference>,
    total: Aabb,
    axis: Axis,
    input: Seq<usize>,
    i: int,
    b2: int,
)
    requires
        0 <= i < input.len(),
    ensures
        spec_bucket(refs[input[i] as int], total, axis) == b2 ==> bucket_refs(
            refs,
            total,
            axis,
            input.take(i + 1),
            b2,
        ) == bucket_refs(refs, total, axis, input.take(i), b2).push(refs[input[i] as int]),
        spec_bucket(refs[input[i] as int], total, axis) != b2 ==> bucket_refs(
            refs,
            total,
            axis,
            input.take(i + 1),
            b2,
        ) == bucket_refs(refs, total, axis, input.take(i), b2),
{
    let pred = in_bucket(refs, total, axis, b2);
    lemma_in_bucket_apply(refs, total, axis, b2, input[i]);
    assert(input.take(i + 1) =~= input.take(i).push(input[i]));
    input.take(i).lemma_filter_push(input[i], pred);
    if spec_bucket(refs[input[i] as int], total, axis) == b2 {
        assert(bucket_refs(refs, total, axis, input.take(i + 1), b2) =~= bucket_refs(
            refs,
            total,
            axis,
            input.take(i),
            b2,
        ).push(refs[input[i] as int]));
    } else {
        assert(bucket_refs(refs, total, axis, input.take(i + 1), b2) =~= bucket_refs(
            refs,
            total,
            axis,
            input.take(i),
            b2,
        ));
    }
}

/// The references of `input` that land in bucket `b`, in input order.
pub open spec fn bucket_refs(
    refs: Seq<Reference>,
    total: Aabb,
    axis: Axis,
    input: Seq<usize>,
    b: int,
) -> Seq<Reference> {
    input.filter(in_bucket(refs, total, axis, b)).map_values(|k: usize| refs[k as int])
}

pub open spec fn bucket_count(
    refs: Seq<Reference>,
    total: Aabb,
    axis: Axis,
    input: Seq<usize>,
    b: int,
) -> int {
    bucket_refs(refs, total, axis, input, b).len() as int
}

/// The united box of one bucket; meaningful when the bucket is not empty.
pub open spec fn bucket_box(
    refs: Seq<Reference>,
    total: Aabb,
    axis: Axis,
    input: Seq<usize>,
    b: int,
) -> Aabb {
    boxes_union(bucket_refs(refs, total, axis, input, b))
}

/// The stand-in box of an empty side, whose surface area is zero.
pub open spec fn zero_box() -> Aabb {
    Aabb { min: GridVec { x: 0, y: 0, z: 0 }, max: GridVec { x: 0, y: 0, z: 0 } }
}

/// How many references lie in the buckets left of cut `c`.
pub open spec fn left_count(
    refs: Seq<Reference>,
    total: Aabb,
    axis: Axis,
    input: Seq<usize>,
    c: int,
) -> int
    decreases c,
{
    if c <= 0 {
        0
    } else {
        left_count(refs, total, axis, input, c - 1) + bucket_count(refs, total, axis, input, c - 1)
    }
}

/// Their united box, folded over the non-empty buckets in rising order.
pub open spec fn left_box(
    refs: Seq<Reference>,
    total: Aabb,
    axis: Axis,
    input: Seq<usize>,
    c: int,
) -> Aabb
    decreases c,
{
    if c <= 0 {
        zero_box()
    } else if bucket_count(refs, total, axis, input, c - 1) > 0 {
        if left_count(refs, total, axis, input, c - 1) > 0 {
            left_box(refs, total, axis, input, c - 1).spec_union(
                bucket_box(refs, total, axis, input, c - 1),
            )
        } else {
            bucket_box(refs, total, axis, input, c - 1)
        }
    } else {
        left_box(refs, total, axis, input, c - 1)
    }
}

/// How many references lie in the buckets at or right of cut `c`.
pub open spec fn right_count(
    refs: Seq<Reference>,
    total: Aabb,
    axis: Axis,
    input: Seq<usize>,
    c: int,
) -> int
    decreases OBJECT_BUCKETS - c,
{
    if c >= OBJECT_BUCKETS {
        0
    } else {
        bucket_count(refs, total, axis, input, c) + right_count(refs, total, axis, input, c + 1)
    }
}

/// Their united box, folded over the non-empty buckets in falling order.
pub open spec fn right_box(
    refs: Seq<Reference>,
    total: Aabb,
    axis: Axis,
    input: Seq<usize>,
    c: int,
) -> Aabb
    decreases OBJECT_BUCKETS - c,
{
    if c >= OBJECT_BUCKETS {
        zero_box()
    } else if bucket_count(refs, total, axis, input, c) > 0 {
        if right_count(refs, total, axis, input, c + 1) > 0 {
            right_box(refs, total, axis, input, c + 1).spec_union(
                bucket_box(refs, total, axis, input, c),
            )
        } else {
            bucket_box(refs, total, axis, input, c)
        }
    } else {
        right_box(refs, total, axis, input, c + 1)
    }
}

/// The surface-area-heuristic cost of cutting before bucket `c`: each side's
/// reference count times the surface area of that side's united box (zero
/// for an empty side).
pub open spec fn spec_cut_cost(
    refs: Seq<Reference>,
    total: Aabb,
    axis: Axis,
    input: Seq<usize>,
    c: int,
) -> int {
    left_count(refs, total, axis, input, c) * left_box(
        refs,
        total,
        axis,
        input,
        c,
    ).spec_surface_area() + right_count(refs, total, axis, input, c) * right_box(
        refs,
        total,
        axis,
        input,
        c,
    ).spec_surface_area()
}


/// Scan the candidate cuts of the surface-area heuristic and keep the
/// cheapest: the returned cut's cost is `spec_cut_cost`, and no other cut
/// costs less.  The cut alone steers tree quality; which references end on
/// which side is fixed by `object_split`.
fn object_split_candidate(
    refs: &Vec<Reference>,
    total: &Aabb,
    input: &Vec<usize>,
    axis: Axis,
) -> (r: (i128, usize))
    requires
        total.wf(),
        forall|j: int| 0 <= j < refs@.len() ==> (#[trigger] refs@[j]).bounding_box.wf(),
        forall|k: int| 0 <= k < input@.len() ==> input@[k] < refs@.len(),
    ensures
        1 <= r.1 < OBJECT_BUCKETS,
        r.0 == spec_cut_cost(refs@, *total, axis, input@, r.1 as int),
        forall|c: int|
            1 <= c < OBJECT_BUCKETS ==> spec_cut_cost(refs@, *total, axis, input@, c) >= r.0,
{
    let dummy = Aabb::new(GridVec::new(0, 0, 0), GridVec::new(0, 0, 0));
    proof {
        assert(dummy.wf());
        assert(dummy == zero_box());
    }
    let mut counts: Vec<usize> = Vec::new();
    let mut boxes: Vec<Aabb> = Vec::new();
    let mut j: usize = 0;
    while j < OBJECT_BUCKETS
        invariant
            j <= OBJECT_BUCKETS,
            dummy.wf(),
            counts@.len() == j,
            boxes@.len() == j,
            forall|k: int| 0 <= k < j ==> counts@[k] == 0usize,
            forall|k: int| 0 <= k < j ==> (#[trigger] boxes@[k]).wf(),
        decreases OBJECT_BUCKETS - j,
    {
        counts.push(0);
        boxes.push(dummy);
        j += 1;
    }
    proof {
        assert forall|b: int| 0 <= b < OBJECT_BUCKETS implies bucket_refs(
            refs@,
            *total,
            axis,
            input@.take(0),
            b,
        ) =~= Seq::<Reference>::empty() by {
            assert(input@.take(0) =~= Seq::<usize>::empty());
            assert(Seq::<usize>::empty().filter(in_bucket(refs@, *total, axis, b))
                =~= Seq::<usize>::empty());
        }
    }

    // Drop each reference into its bucket, uniting the bucket boxes.
    let mut i: usize = 0;
    while i < input.len()
        invariant
            i <= input@.len(),
            total.wf(),
            counts@.len() == OBJECT_BUCKETS,
            boxes@.len() == OBJECT_BUCKETS,
            forall|j2: int| 0 <= j2 < refs@.len() ==> (#[trigger] refs@[j2]).bounding_box.wf(),
            forall|k: int| 0 <= k < input@.len() ==> input@[k] < refs@.len(),
            forall|k: int| 0 <= k < OBJECT_BUCKETS ==> counts@[k] <= i,
            forall|k: int| 0 <= k < OBJECT_BUCKETS ==> (#[trigger] boxes@[k]).wf(),
            forall|b: int|
                0 <= b < OBJECT_BUCKETS ==> counts@[b] == bucket_count(
                    refs@,
                    *total,
                    axis,
                    input@.take(i as int),
                    b,
                ),
            forall|b: int|
                0 <= b < OBJECT_BUCKETS && counts@[b] > 0 ==> boxes@[b] == bucket_box(
                    refs@,
                    *total,
                    axis,
                    input@.take(i as int),
                    b,
                ),
        decreases input@.len() - i,
    {
        let idx = input[i];
        let b = bucket_index(&refs[idx], total, axis);
        proof {
            assert forall|b2: int| 0 <= b2 < OBJECT_BUCKETS implies (#[trigger] bucket_refs(
                refs@,
                *total,
                axis,
                input@.take(i as int + 1),
                b2,
            )) == (if b2 == b as int {
                bucket_refs(refs@, *total, axis, input@.take(i as int), b2).push(
                    refs@[input@[i as int] as int],
                )
            } else {
                bucket_refs(refs@, *total, axis, input@.take(i as int), b2)
            }) by {
                lemma_bucket_step(refs@, *total, axis, input@, i as int, b2);
            }
            let old_r = bucket_refs(refs@, *total, axis, input@.take(i as int), b as int);
            let new_r = bucket_refs(refs@, *total, axis, input@.take(i as int + 1), b as int);
            assert(new_r == old_r.push(refs@[input@[i as int] as int]));
            if old_r.len() > 0 {
                assert(new_r.drop_last() =~= old_r);
                assert(boxes_union(new_r) == boxes_union(old_r).spec_union(
                    refs@[input@[i as int] as int].bounding_box,
                ));
            } else {
                assert(new_r.len() == 1);
                assert(new_r[0] == refs@[input@[i as int] as int]);
            }
        }
        if counts[b] == 0 {
            boxes.set(b, refs[idx].bounding_box);
        } else {
            let u = boxes[b].union(&refs[idx].bounding_box);
            boxes.set(b, u);
        }
        let c = counts[b];
        counts.set(b, c + 1);
        i += 1;
    }
    proof {
        assert(input@.take(input@.len() as int) =~= input@);
    }

    // Left-hand prefix: for each candidate cut, how many references lie left
    // of it and what box bounds them.
    let mut lhs_counts: Vec<u128> = Vec::new();
    let mut lhs_boxes: Vec<Aabb> = Vec::new();
    let mut acc_count: u128 = 0;
    let mut acc_box: Aabb = dummy;
    let mut acc_any: bool = false;
    let mut j: usize = 0;
    while j < OBJECT_BUCKETS - 1
        invariant
            j <= OBJECT_BUCKETS - 1,
            dummy == zero_box(),
            dummy.wf(),
            counts@.len() == OBJECT_BUCKETS,
            boxes@.len() == OBJECT_BUCKETS,
            lhs_counts@.len() == j,
            lhs_boxes@.len() == j,
            acc_count <= j * 0x10000000000000000,
            acc_box.wf(),
            forall|k: int| 0 <= k < OBJECT_BUCKETS ==> (#[trigger] boxes@[k]).wf(),
            forall|b: int|
                0 <= b < OBJECT_BUCKETS ==> counts@[b] == bucket_count(
                    refs@,
                    *total,
                    axis,
                    input@,
                    b,
                ),
            forall|b: int|
                0 <= b < OBJECT_BUCKETS && counts@[b] > 0 ==> boxes@[b] == bucket_box(
                    refs@,
                    *total,
                    axis,
                    input@,
                    b,
                ),
            acc_count == left_count(refs@, *total, axis, input@, j as int),
            acc_any == (left_count(refs@, *total, axis, input@, j as int) > 0),
            acc_box == left_box(refs@, *total, axis, input@, j as int),
            forall|k: int| 0 <= k < j ==> lhs_counts@[k] <= 0x200000000000000000,
            forall|k: int| 0 <= k < j ==> (#[trigger] lhs_boxes@[k]).wf(),
            forall|k: int|
                0 <= k < j ==> lhs_counts@[k] == left_count(refs@, *total, axis, input@, k + 1),
            forall|k: int|
                0 <= k < j ==> #[trigger] lhs_boxes@[k] == left_box(
                    refs@,
                    *total,
                    axis,
                    input@,
                    k + 1,
                ),
        decreases OBJECT_BUCKETS - j,
    {
        proof {
            assert(left_count(refs@, *total, axis, input@, j as int + 1) == left_count(
                refs@,
                *total,
                axis,
                input@,
                j as int,
            ) + bucket_count(refs@, *total, axis, input@, j as int));
        }
        if counts[j] > 0 {
            if acc_any {
                let u = acc_box.union(&boxes[j]);
                acc_box = u;
            } else {
                acc_box = boxes[j];
                acc_any = true;
            }
        }
        acc_count = acc_count + counts[j] as u128;
        lhs_counts.push(acc_count);
        lhs_boxes.push(acc_box);
        j += 1;
    }

    // Right-hand suffix scan, keeping the cheapest cut seen.
    let mut min_cost: i128 = i128::MAX;
    let mut min_idx: usize = 0;
    let mut rhs_count: u128 = 0;
    let mut rhs_box: Aabb = dummy;
    let mut rhs_any: bool = false;
    let mut i: usize = OBJECT_BUCKETS - 1;
    while i >= 1
        invariant
            1 <= i + 1 <= OBJECT_BUCKETS,
            dummy == zero_box(),
            dummy.wf(),
            counts@.len() == OBJECT_BUCKETS,
            boxes@.len() == OBJECT_BUCKETS,
            lhs_counts@.len() == OBJECT_BUCKETS - 1,
            lhs_boxes@.len() == OBJECT_BUCKETS - 1,
            rhs_count <= (OBJECT_BUCKETS - 1 - i) * 0x10000000000000000,
            rhs_box.wf(),
            forall|k: int| 0 <= k < OBJECT_BUCKETS ==> (#[trigger] boxes@[k]).wf(),
            forall|b: int|
                0 <= b < OBJECT_BUCKETS ==> counts@[b] == bucket_count(
                    refs@,
                    *total,
                    axis,
                    input@,
                    b,
                ),
            forall|b: int|
                0 <= b < OBJECT_BUCKETS && counts@[b] > 0 ==> boxes@[b] == bucket_box(
                    refs@,
                    *total,
                    axis,
                    input@,
                    b,
                ),
            forall|k: int| 0 <= k < OBJECT_BUCKETS - 1 ==> lhs_counts@[k]
                <= 0x200000000000000000,
            forall|k: int| 0 <= k < OBJECT_BUCKETS - 1 ==> (#[trigger] lhs_boxes@[k]).wf(),
            forall|k: int|
                0 <= k < OBJECT_BUCKETS - 1 ==> lhs_counts@[k] == left_count(
                    refs@,
                    *total,
                    axis,
                    input@,
                    k + 1,
                ),
            forall|k: int|
                0 <= k < OBJECT_BUCKETS - 1 ==> #[trigger] lhs_boxes@[k] == left_box(
                    refs@,
                    *total,
                    axis,
                    input@,
                    k + 1,
                ),
            rhs_count == right_count(refs@, *total, axis, input@, i as int + 1),
            rhs_any == (right_count(refs@, *total, axis, input@, i as int + 1) > 0),
            rhs_box == right_box(refs@, *total, axis, input@, i as int + 1),
            min_cost == i128::MAX ==> (i == OBJECT_BUCKETS - 1 && min_idx == 0),
            min_cost < i128::MAX ==> 1 <= min_idx < OBJECT_BUCKETS,
            min_cost < i128::MAX ==> min_cost == spec_cut_cost(
                refs@,
                *total,
                axis,
                input@,
                min_idx as int,
            ),
            forall|c: int|
                i < c < OBJECT_BUCKETS ==> spec_cut_cost(refs@, *total, axis, input@, c)
                    >= min_cost,
            0 <= min_cost,
        decreases i,
    {
        proof {
            assert(right_count(refs@, *total, axis, input@, i as int) == bucket_count(
                refs@,
                *total,
                axis,
                input@,
                i as int,
            ) + right_count(refs@, *total, axis, input@, i as int + 1));
        }
        if counts[i] > 0 {
            if rhs_any {
                let u = rhs_box.union(&boxes[i]);
                rhs_box = u;
            } else {
                rhs_box = boxes[i];
                rhs_any = true;
            }
        }
        rhs_count = rhs_count + counts[i] as u128;
        let sa_l: i128 = lhs_boxes[i - 1].surface_area();
        let sa_r: i128 = rhs_box.surface_area();
        let nl: i128 = lhs_counts[i - 1] as i128;
        let nr: i128 = rhs_count as i128;
        proof {
            assert(0 <= nl * sa_l <= 0x200000000000000000 * 26388279066624 && 0 <= nr * sa_r
                <= 0x200000000000000000 * 26388279066624) by (nonlinear_arith)
                requires
                    0 <= nl <= 0x200000000000000000,
                    0 <= sa_l <= 26388279066624,
                    0 <= nr <= 0x200000000000000000,
                    0 <= sa_r <= 26388279066624,
            ;
        }
        let cost: i128 = nl * sa_l + nr * sa_r;
        proof {
            assert(cost == spec_cut_cost(refs@, *total, axis, input@, i as int));
        }
        if cost < min_cost {
            min_cost = cost;
            min_idx = i;
        }
        i -= 1;
    }
    (min_cost, min_idx)
}

/// Build a subtree over the referenced entries and push its nodes onto the
/// arena; the result is the subtree root's arena index.  The references
/// reachable from that root are exactly the referenced entries: nothing is
/// lost and nothing is duplicated.
fn build(refs: &Vec<Reference>, input: Vec<usize>, output: &mut AtomicArena<SbvhNode>) -> (root:
    usize)
    requires
        input@.len() >= 1,
        forall|k: int| 0 <= k < input@.len() ==> input@[k] < refs@.len(),
        forall|j: int| 0 <= j < refs@.len() ==> (#[trigger] refs@[j]).bounding_box.wf(),
        arena_wf(old(output)@),
    ensures
        arena_wf(final(output)@),
        final(output)@.len() > old(output)@.len(),
        root == final(output)@.len() - 1,
        forall|j: int| 0 <= j < old(output)@.len() ==> final(output)@[j] == old(output)@[j],
        tree_refs(final(output)@, root as int).to_multiset() == input@.map_values(
            |k: usize| refs@[k as int],
        ).to_multiset(),
        tree_boxes_wf(final(output)@, root as int),
    decreases input@.len(),
{
    let ghost to_ref = |k: usize| refs@[k as int];
    if input.len() < 2 {
        let root = create_leaf(refs, &input, output);
        proof {
            lemma_leaf_post(refs@, input@, output@, root as int);
        }
        return root;
    }

    let mut total: Aabb = refs[input[0]].bounding_box;
    let mut i: usize = 1;
    while i < input.len()
        invariant
            1 <= i <= input@.len(),
            total.wf(),
            forall|k: int| 0 <= k < input@.len() ==> input@[k] < refs@.len(),
            forall|j: int| 0 <= j < refs@.len() ==> (#[trigger] refs@[j]).bounding_box.wf(),
        decreases input@.len() - i,
    {
        let u = total.union(&refs[input[i]].bounding_box);
        total = u;
        i += 1;
    }

    let ex = total.extent(Axis::X);
    let ey = total.extent(Axis::Y);
    let ez = total.extent(Axis::Z);
    let split_axis = if ex >= ey && ex >= ez {
        Axis::X
    } else if ey >= ez {
        Axis::Y
    } else {
        Axis::Z
    };

    let sa_total: i128 = total.surface_area();
    if sa_total == 0 {
        let root = create_leaf(refs, &input, output);
        proof {
            lemma_leaf_post(refs@, input@, output@, root as int);
        }
        return root;
    }

    let (object_split_cost, object_split_bucket) = object_split_candidate(
        refs,
        &total,
        &input,
        split_axis,
    );

    let n: i128 = input.len() as i128;
    proof {
        assert(0 <= (n - 1) * sa_total < 0x40000000000000000000000000000000) by (nonlinear_arith)
            requires
                1 <= n <= 0x10000000000000000,
                0 <= sa_total <= 26388279066624,
        ;
    }
    if object_split_cost < (n - 1) * sa_total {
        let (lefts, rights) = object_split(refs, &total, &input, split_axis, object_split_bucket);
        if lefts.len() >= 1 && rights.len() >= 1 {
            let ghost pred = below_cut(refs@, total, split_axis, object_split_bucket as int);
            let ghost npred = at_or_above_cut(
                refs@,
                total,
                split_axis,
                object_split_bucket as int,
            );
            proof {
                assert forall|x: usize| #[trigger] npred(x) == !pred(x) by {
                    lemma_cut_apply(refs@, total, split_axis, object_split_bucket as int, x);
                }
                lemma_filter_partition_map(input@, pred, npred, to_ref);
                broadcast use vstd::seq_lib::group_seq_properties;

                assert(lefts@.map_values(to_ref).to_multiset().len() == lefts@.len());
                assert(rights@.map_values(to_ref).to_multiset().len() == rights@.len());
                assert(input@.map_values(to_ref).to_multiset().len() == input@.len());
                assert(lefts@.len() + rights@.len() == input@.len());
                assert forall|k: int| 0 <= k < lefts@.len() implies lefts@[k] < refs@.len() by {
                    let x = lefts@[k];
                    assert(lefts@.contains(x));
                    input@.lemma_filter_contains_rev(pred, x);
                    let j = choose|j: int| 0 <= j < input@.len() && input@[j] == x;
                }
                assert forall|k: int| 0 <= k < rights@.len() implies rights@[k] < refs@.len() by {
                    let x = rights@[k];
                    assert(rights@.contains(x));
                    input@.lemma_filter_contains_rev(npred, x);
                    let j = choose|j: int| 0 <= j < input@.len() && input@[j] == x;
                }
            }
            let lhs = build(refs, lefts, output);
            let ghost arena1 = output@;
            let rhs = build(refs, rights, output);
            let ghost arena2 = output@;
            let root = output.push(SbvhNode::Node { lhs, rhs });
            proof {
                lemma_tree_refs_frame(arena1, arena2, lhs as int);
                lemma_tree_refs_frame(arena2, output@, lhs as int);
                lemma_tree_refs_frame(arena2, output@, rhs as int);
                assert(tree_refs(output@, root as int) == tree_refs(output@, lhs as int)
                    + tree_refs(output@, rhs as int));
                lemma_multiset_commutative(
                    tree_refs(output@, lhs as int),
                    tree_refs(output@, rhs as int),
                );
                assert(arena_wf(output@));
                assert(tree_boxes_wf(output@, root as int));
            }
            return root;
        }
        let root = create_leaf(refs, &input, output);
        proof {
            lemma_leaf_post(refs@, input@, output@, root as int);
        }
        return root;
    }
    let root = create_leaf(refs, &input, output);
    proof {
        lemma_leaf_post(refs@, input@, output@, root as int);
    }
    root
}

/// What a freshly emitted leaf satisfies of the build contract.
proof fn lemma_leaf_post(refs: Seq<Reference>, idxs: Seq<usize>, nodes: Seq<SbvhNode>, root: int)
    requires
        forall|j: int| 0 <= j < refs.len() ==> (#[trigger] refs[j]).bounding_box.wf(),
        forall|k: int| 0 <= k < idxs.len() ==> idxs[k] < refs.len(),
        tree_refs(nodes, root) == idxs.map_values(|k: usize| refs[k as int]),
    ensures
        tree_refs(nodes, root).to_multiset() == idxs.map_values(
            |k: usize| refs[k as int],
        ).to_multiset(),
        tree_boxes_wf(nodes, root),
{
    let m = idxs.map_values(|k: usize| refs[k as int]);
    assert forall|k: int| 0 <= k < tree_refs(nodes, root).len() implies (#[trigger] tree_refs(
        nodes,
        root,
    )[k]).bounding_box.wf() by {
        assert(tree_refs(nodes, root)[k] == m[k]);
        assert(m[k] == refs[idxs[k] as int]);
    }
}

/// A surface-area-heuristic bounding-volume hierarchy: an arena of nodes and
/// the arena index of the root.
pub struct Sbvh {
    pub nodes: AtomicArena<SbvhNode>,
    pub root_node: usize,
}

impl Sbvh {
    /// Whether this hierarchy is structurally sound.
    pub open spec fn wf(&self) -> bool {
        arena_wf(self.nodes@) && self.root_node < self.nodes@.len() && tree_boxes_wf(
            self.nodes@,
            self.root_node as int,
        )
    }

    /// The references its leaves reach, left to right.
    pub open spec fn leaves(&self) -> Seq<Reference> {
        tree_refs(self.nodes@, self.root_node as int)
    }

    /// Build a hierarchy over one bounding box per primitive; box `i` stands
    /// for the primitive at index `i`.
    ///
    /// Every primitive index appears in exactly one leaf, exactly once, and
    /// keeps its box: the leaves are a permutation of the input.
    pub fn new(prims: &Vec<Aabb>) -> (s: Sbvh)
        requires
            prims@.len() >= 1,
            prims@.len() <= usize::MAX / 2,
            forall|j: int| 0 <= j < prims@.len() ==> (#[trigger] prims@[j]).wf(),
        ensures
            s.wf(),
            s.leaves().to_multiset() == Seq::new(
                prims@.len() as nat,
                |i: int| Reference { prim_idx: i as usize, bounding_box: prims@[i] },
            ).to_multiset(),
    {
        let ghost target = Seq::new(
            prims@.len() as nat,
            |i: int| Reference { prim_idx: i as usize, bounding_box: prims@[i] },
        );
        let mut refs: Vec<Reference> = Vec::new();
        let mut input: Vec<usize> = Vec::new();
        let mut i: usize = 0;
        while i < prims.len()
            invariant
                i <= prims@.len(),
                refs@.len() == i,
                input@.len() == i,
                forall|j: int| 0 <= j < prims@.len() ==> (#[trigger] prims@[j]).wf(),
                forall|k: int|
                    0 <= k < i ==> #[trigger] refs@[k] == (Reference {
                        prim_idx: k as usize,
                        bounding_box: prims@[k],
                    }),
                forall|k: int| 0 <= k < i ==> #[trigger] input@[k] == k as usize,
            decreases prims@.len() - i,
        {
            refs.push(Reference { prim_idx: i, bounding_box: prims[i] });
            input.push(i);
            i += 1;
        }
        let mut nodes: AtomicArena<SbvhNode> = AtomicArena::new(2 * prims.len() - 1);
        let ghost input_snap = input@;
        let root_node = build(&refs, input, &mut nodes);
        proof {
            assert(input_snap.map_values(|k: usize| refs@[k as int]) =~= target);
        }
        Sbvh { nodes, root_node }
    }

    /// The united box of everything reachable from the node at `idx`.
    pub fn node_bounding_box(&self, idx: usize) -> (b: Aabb)
        requires
            arena_wf(self.nodes@),
            idx < self.nodes@.len(),
            tree_boxes_wf(self.nodes@, idx as int),
        ensures
            b == boxes_union(tree_refs(self.nodes@, idx as int)),
            b.wf(),
        decreases idx,
    {
        proof {
            lemma_tree_refs_nonempty(self.nodes@, idx as int);
            lemma_boxes_union_contains(tree_refs(self.nodes@, idx as int));
        }
        match self.nodes.get(idx) {
            Some(node) => match node {
                SbvhNode::Leaf { refs } => {
                    let ghost all = refs@;
                    let mut b: Aabb = refs[0].bounding_box;
                    let mut i: usize = 1;
                    proof {
                        assert(all.take(1) =~= seq![all[0]]);
                    }
                    while i < refs.len()
                        invariant
                            1 <= i <= all.len(),
                            refs@ == all,
                            b == boxes_union(all.take(i as int)),
                            forall|k: int|
                                0 <= k < all.len() ==> (#[trigger] all[k]).bounding_box.wf(),
                            b.wf(),
                        decreases all.len() - i,
                    {
                        let u = b.union(&refs[i].bounding_box);
                        proof {
                            assert(all.take(i + 1 as int).drop_last() =~= all.take(i as int));
                            assert(all.take(i + 1 as int).last() == all[i as int]);
                        }
                        b = u;
                        i += 1;
                    }
                    proof {
                        assert(all.take(all.len() as int) =~= all);
                    }
                    b
                },
                SbvhNode::Node { lhs, rhs } => {
                    proof {
                        assert(tree_refs(self.nodes@, idx as int) == tree_refs(
                            self.nodes@,
                            *lhs as int,
                        ) + tree_refs(self.nodes@, *rhs as int));
                        assert forall|k: int|
                            0 <= k < tree_refs(self.nodes@, *lhs as int).len() implies (
                        #[trigger] tree_refs(self.nodes@, *lhs as int)[k]).bounding_box.wf() by {
                            assert(tree_refs(self.nodes@, idx as int)[k] == tree_refs(
                                self.nodes@,
                                *lhs as int,
                            )[k]);
                        }
                        assert forall|k: int|
                            0 <= k < tree_refs(self.nodes@, *rhs as int).len() implies (
                        #[trigger] tree_refs(self.nodes@, *rhs as int)[k]).bounding_box.wf() by {
                            let off = tree_refs(self.nodes@, *lhs as int).len();
                            assert(tree_refs(self.nodes@, idx as int)[k + off] == tree_refs(
                                self.nodes@,
                                *rhs as int,
                            )[k]);
                        }
                        lemma_tree_refs_nonempty(self.nodes@, *lhs as int);
                        lemma_tree_refs_nonempty(self.nodes@, *rhs as int);
                        lemma_boxes_union_concat(
                            tree_refs(self.nodes@, *lhs as int),
                            tree_refs(self.nodes@, *rhs as int),
                        );
                    }
                    let bl = self.node_bounding_box(*lhs);
                    let br = self.node_bounding_box(*rhs);
                    bl.union(&br)
                },
            },
            None => {
                proof {
                    assert(false);
                }
                Aabb::new(GridVec::new(0, 0, 0), GridVec::new(0, 0, 0))
            },
        }
    }

    /// The united box of the whole hierarchy.
    pub fn bounding_box(&self) -> (b: Aabb)
        requires
            self.wf(),
        ensures
            b == boxes_union(self.leaves()),
            b.wf(),
    {
        self.node_bounding_box(self.root_node)
    }
}

/// Every box reachable from a node lies inside that node's united box.
pub proof fn lemma_node_box_contains(nodes: Seq<SbvhNode>, i: int)
    requires
        arena_wf(nodes),
        0 <= i < nodes.len(),
    ensures
        forall|k: int|
            0 <= k < tree_refs(nodes, i).len() ==> boxes_union(tree_refs(nodes, i)).contains_box(
                (#[trigger] tree_refs(nodes, i)[k]).bounding_box,
            ),
{
    lemma_tree_refs_nonempty(nodes, i);
    lemma_boxes_union_contains(tree_refs(nodes, i));
}

/// The hierarchy as an owned tree: interior nodes hold their children and
/// bounds, leaves hold the indices of the primitives they bound.
pub enum TreeNode {
    Branch { a: Box<TreeNode>, b: Box<TreeNode>, bounding: Aabb },
    Leaf { indices: Vec<usize>, bounding: Aabb },
}

/// The primitive indices a tree reaches, leaves left to right.
pub open spec fn tree_node_indices(t: TreeNode) -> Seq<usize>
    decreases t,
{
    match t {
        TreeNode::Branch { a, b, .. } => tree_node_indices(*a) + tree_node_indices(*b),
        TreeNode::Leaf { indices, .. } => indices@,
    }
}

pub open spec fn tree_node_bounding(t: TreeNode) -> Aabb {
    match t {
        TreeNode::Branch { bounding, .. } => bounding,
        TreeNode::Leaf { bounding, .. } => bounding,
    }
}

/// Bounds nest: every branch box contains both of its children's boxes.
pub open spec fn tree_node_wf(t: TreeNode) -> bool
    decreases t,
{
    match t {
        TreeNode::Branch { a, b, bounding } => tree_node_wf(*a) && tree_node_wf(*b)
            && bounding.contains_box(tree_node_bounding(*a)) && bounding.contains_box(
            tree_node_bounding(*b),
        ),
        TreeNode::Leaf { .. } => true,
    }
}

impl Sbvh {
    /// The subtree at `idx` as an owned tree.  The tree reaches the same
    /// primitives in the same order, each node carries the united box of
    /// what it reaches, and the boxes nest.
    pub fn to_tree_node(&self, idx: usize) -> (t: TreeNode)
        requires
            arena_wf(self.nodes@),
            idx < self.nodes@.len(),
            tree_boxes_wf(self.nodes@, idx as int),
        ensures
            tree_node_indices(t) == tree_refs(self.nodes@, idx as int).map_values(
                |r: Reference| r.prim_idx,
            ),
            tree_node_bounding(t) == boxes_union(tree_refs(self.nodes@, idx as int)),
            tree_node_wf(t),
        decreases idx,
    {
        let bounding = self.node_bounding_box(idx);
        match self.nodes.get(idx) {
            Some(node) => match node {
                SbvhNode::Leaf { refs } => {
                    let ghost all = refs@;
                    let mut indices: Vec<usize> = Vec::new();
                    let mut i: usize = 0;
                    while i < refs.len()
                        invariant
                            i <= all.len(),
                            refs@ == all,
                            indices@ =~= all.take(i as int).map_values(
                                |r: Reference| r.prim_idx,
                            ),
                        decreases all.len() - i,
                    {
                        indices.push(refs[i].prim_idx);
                        proof {
                            assert(all.take(i + 1 as int) =~= all.take(i as int).push(
                                all[i as int],
                            ));
                            all.take(i as int).lemma_push_map_commute(
                                |r: Reference| r.prim_idx,
                                all[i as int],
                            );
                        }
                        i += 1;
                    }
                    proof {
                        assert(all.take(all.len() as int) =~= all);
                    }
                    TreeNode::Leaf { indices, bounding }
                },
                SbvhNode::Node { lhs, rhs } => {
                    let ghost left_refs = tree_refs(self.nodes@, *lhs as int);
                    let ghost right_refs = tree_refs(self.nodes@, *rhs as int);
                    proof {
                        assert(tree_refs(self.nodes@, idx as int) == left_refs + right_refs);
                        assert forall|k: int| 0 <= k < left_refs.len() implies (
                        #[trigger] left_refs[k]).bounding_box.wf() by {
                            assert(tree_refs(self.nodes@, idx as int)[k] == left_refs[k]);
                        }
                        assert forall|k: int| 0 <= k < right_refs.len() implies (
                        #[trigger] right_refs[k]).bounding_box.wf() by {
                            assert(tree_refs(self.nodes@, idx as int)[k + left_refs.len()]
                                == right_refs[k]);
                        }
                        lemma_tree_refs_nonempty(self.nodes@, *lhs as int);
                        lemma_tree_refs_nonempty(self.nodes@, *rhs as int);
                        lemma_boxes_union_concat(left_refs, right_refs);
                        Aabb::lemma_union_contains(
                            boxes_union(left_refs),
                            boxes_union(right_refs),
                        );
                    }
                    let a = self.to_tree_node(*lhs);
                    let b = self.to_tree_node(*rhs);
                    proof {
                        assert((left_refs + right_refs).map_values(|r: Reference| r.prim_idx)
                            =~= left_refs.map_values(|r: Reference| r.prim_idx)
                            + right_refs.map_values(|r: Reference| r.prim_idx));
                    }
                    TreeNode::Branch { a: Box::new(a), b: Box::new(b), bounding }
                },
            },
            None => {
                proof {
                    assert(false);
                }
                TreeNode::Leaf { indices: Vec::new(), bounding }
            },
        }
    }

    /// The whole hierarchy as an owned tree.
    pub fn to_tree(&self) -> (t: TreeNode)
        requires
            self.wf(),
        ensures
            tree_node_indices(t) == self.leaves().map_values(|r: Reference| r.prim_idx),
            tree_node_bounding(t) == boxes_union(self.leaves()),
            tree_node_wf(t),
    {
        self.to_tree_node(self.root_node)
    }
}

/// The leaves of a hierarchy whose reference multiset matches one reference
/// per primitive (what `Sbvh::new` ensures) index the primitives without
/// duplicates.
pub proof fn lemma_leaves_no_duplicates(leaves: Seq<Reference>, prims: Seq<Aabb>)
    requires
        prims.len() <= usize::MAX,
        leaves.to_multiset() == Seq::new(
            prims.len(),
            |i: int| Reference { prim_idx: i as usize, bounding_box: prims[i] },
        ).to_multiset(),
    ensures
        leaves.map_values(|r: Reference| r.prim_idx).no_duplicates(),
{
    broadcast use vstd::seq_lib::group_to_multiset_ensures;

    let target = Seq::new(
        prims.len(),
        |i: int| Reference { prim_idx: i as usize, bounding_box: prims[i] },
    );
    assert forall|i: int, j: int|
        0 <= i < target.len() && 0 <= j < target.len() && i != j implies target[i]
        != target[j] by {
        assert(target[i].prim_idx == i && target[j].prim_idx == j);
    }
    assert(target.no_duplicates());
    target.lemma_multiset_has_no_duplicates();
    leaves.lemma_multiset_has_no_duplicates_conv();
    let m = leaves.map_values(|r: Reference| r.prim_idx);
    assert forall|k1: int, k2: int|
        0 <= k1 < m.len() && 0 <= k2 < m.len() && k1 != k2 implies m[k1] != m[k2] by {
        assert(leaves.contains(leaves[k1]));
        assert(leaves.contains(leaves[k2]));
        assert(target.to_multiset().count(leaves[k1]) > 0);
        assert(target.to_multiset().count(leaves[k2]) > 0);
        assert(target.contains(leaves[k1]));
        assert(target.contains(leaves[k2]));
        let j1 = choose|j: int| 0 <= j < target.len() && target[j] == leaves[k1];
        let j2 = choose|j: int| 0 <= j < target.len() && target[j] == leaves[k2];
        assert(leaves[k1].prim_idx == j1 && leaves[k2].prim_idx == j2);
        if m[k1] == m[k2] {
            assert(leaves[k1] == leaves[k2]);
        }
    }
}

} // verus!
