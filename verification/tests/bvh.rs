use raytracer::bvh::{Sbvh, TreeNode};
use raytracer::geom::{Aabb, GridVec};

fn boxed(min: (i64, i64, i64), max: (i64, i64, i64)) -> Aabb {
    Aabb::new(
        GridVec::new(min.0, min.1, min.2),
        GridVec::new(max.0, max.1, max.2),
    )
}

fn collect_indices(t: &TreeNode, out: &mut Vec<usize>) {
    match t {
        TreeNode::Branch { a, b, .. } => {
            collect_indices(a, out);
            collect_indices(b, out);
        }
        TreeNode::Leaf { indices, .. } => {
            out.extend(indices.iter().copied());
        }
    }
}

fn contains(outer: &Aabb, inner: &Aabb) -> bool {
    outer.min.x <= inner.min.x
        && outer.min.y <= inner.min.y
        && outer.min.z <= inner.min.z
        && inner.max.x <= outer.max.x
        && inner.max.y <= outer.max.y
        && inner.max.z <= outer.max.z
}

fn bounding(t: &TreeNode) -> Aabb {
    match t {
        TreeNode::Branch { bounding, .. } => *bounding,
        TreeNode::Leaf { bounding, .. } => *bounding,
    }
}

/// Every branch box must contain both children's boxes, and every leaf box
/// the boxes of the primitives it indexes.
fn check_nesting(t: &TreeNode, prims: &[Aabb]) {
    match t {
        TreeNode::Branch { a, b, bounding: bb } => {
            assert!(contains(bb, &bounding(a)));
            assert!(contains(bb, &bounding(b)));
            check_nesting(a, prims);
            check_nesting(b, prims);
        }
        TreeNode::Leaf { indices, bounding } => {
            for &i in indices.iter() {
                assert!(contains(bounding, &prims[i]));
            }
        }
    }
}

/// The leaves of a tree over `prims` must index each primitive exactly once.
fn check_partition(prims: Vec<Aabb>) -> TreeNode {
    let n = prims.len();
    let sbvh = Sbvh::new(&prims);
    let tree = sbvh.to_tree();
    let mut indices = Vec::new();
    collect_indices(&tree, &mut indices);
    let mut sorted = indices.clone();
    sorted.sort();
    let expected: Vec<usize> = (0..n).collect();
    assert_eq!(sorted, expected, "leaves must index every primitive once");
    check_nesting(&tree, &prims);
    tree
}

#[test]
fn one_box_makes_one_leaf() {
    let prims = vec![boxed((0, 0, 0), (1, 2, 3))];
    let tree = check_partition(prims.clone());
    match tree {
        TreeNode::Leaf { indices, bounding } => {
            assert_eq!(indices, vec![0]);
            assert_eq!(bounding, prims[0]);
        }
        TreeNode::Branch { .. } => panic!("a single box must make a leaf"),
    }
}

#[test]
fn well_separated_boxes_split() {
    let mut prims = Vec::new();
    for i in 0..8i64 {
        prims.push(boxed((100 * i, 0, 0), (100 * i + 10, 10, 10)));
    }
    let tree = check_partition(prims);
    assert!(
        matches!(tree, TreeNode::Branch { .. }),
        "eight separated boxes must split"
    );
}

#[test]
fn identical_boxes_share_a_leaf() {
    let prims = vec![boxed((0, 0, 0), (5, 5, 5)); 6];
    check_partition(prims);
}

#[test]
fn a_grid_of_boxes_partitions_exactly() {
    let mut prims = Vec::new();
    for x in 0..5i64 {
        for y in 0..5i64 {
            for z in 0..3i64 {
                prims.push(boxed(
                    (20 * x, 20 * y, 20 * z),
                    (20 * x + 8, 20 * y + 8, 20 * z + 8),
                ));
            }
        }
    }
    check_partition(prims);
}

#[test]
fn root_bounding_box_is_the_union() {
    let prims = vec![
        boxed((-5, 0, 2), (1, 4, 3)),
        boxed((0, -7, 0), (2, 1, 9)),
        boxed((3, 3, -1), (4, 8, 0)),
    ];
    let sbvh = Sbvh::new(&prims);
    let b = sbvh.bounding_box();
    assert_eq!((b.min.x, b.min.y, b.min.z), (-5, -7, -1));
    assert_eq!((b.max.x, b.max.y, b.max.z), (4, 8, 9));
}

#[test]
fn flat_boxes_still_partition() {
    // Zero surface area along every axis: the build must fall back to leaves
    // rather than divide by a zero extent.
    let prims = vec![
        boxed((1, 1, 1), (1, 1, 1)),
        boxed((2, 2, 2), (2, 2, 2)),
        boxed((3, 3, 3), (3, 3, 3)),
    ];
    check_partition(prims);
}

#[test]
fn vertex_adjacency_lists_each_corner_use() {
    // Two triangles sharing an edge, plus a degenerate one naming a vertex
    // twice: the doubled corner counts twice.
    let tris = vec![[0usize, 1, 2], [1, 2, 3], [3, 3, 0]];
    let adj = raytracer::mesh::vertex_triangles(&tris, 4);
    assert_eq!(adj.len(), 4);
    assert_eq!(adj[0], vec![0, 2]);
    assert_eq!(adj[1], vec![0, 1]);
    assert_eq!(adj[2], vec![0, 1]);
    assert_eq!(adj[3], vec![1, 2, 2]);
}

#[test]
fn vertex_adjacency_of_lone_vertices_is_empty() {
    let tris: Vec<[usize; 3]> = vec![];
    let adj = raytracer::mesh::vertex_triangles(&tris, 3);
    assert_eq!(adj, vec![Vec::<usize>::new(); 3]);
}
