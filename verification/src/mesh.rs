use vstd::prelude::*;

verus! {

/// The occurrences of vertex `v` among the corners of triangle `t`: the
/// triangle's index once per corner that names the vertex, in corner order.
pub open spec fn corner_occurrences(tri: [usize; 3], t: int, v: int) -> Seq<usize> {
    (if tri@[0] == v {
        seq![t as usize]
    } else {
        Seq::empty()
    }) + (if tri@[1] == v {
        seq![t as usize]
    } else {
        Seq::empty()
    }) + (if tri@[2] == v {
        seq![t as usize]
    } else {
        Seq::empty()
    })
}

/// The triangles adjoining vertex `v`: every triangle whose corners name it,
/// in triangle order, once per naming corner.
pub open spec fn adjacent_triangles(tris: Seq<[usize; 3]>, v: int) -> Seq<usize>
    decreases tris.len(),
{
    if tris.len() == 0 {
        Seq::empty()
    } else {
        adjacent_triangles(tris.drop_last(), v) + corner_occurrences(
            tris.last(),
            tris.len() - 1,
            v,
        )
    }
}

/// For every vertex, the triangles adjoining it, as `adjacent_triangles`
/// describes.  Recalculating a mesh's vertex normals averages each vertex's
/// adjoining face normals over exactly this adjacency.
pub fn vertex_triangles(tris: &Vec<[usize; 3]>, n_verts: usize) -> (adj: Vec<Vec<usize>>)
    requires
        forall|t: int|
            0 <= t < tris@.len() ==> (#[trigger] tris@[t])@[0] < n_verts && tris@[t]@[1] < n_verts
                && tris@[t]@[2] < n_verts,
    ensures
        adj@.len() == n_verts,
        forall|v: int|
            0 <= v < n_verts ==> (#[trigger] adj@[v])@ == adjacent_triangles(tris@, v),
{
    let mut adj: Vec<Vec<usize>> = Vec::new();
    let mut j: usize = 0;
    while j < n_verts
        invariant
            j <= n_verts,
            adj@.len() == j,
            forall|v: int| 0 <= v < j ==> (#[trigger] adj@[v])@ =~= Seq::<usize>::empty(),
        decreases n_verts - j,
    {
        adj.push(Vec::new());
        j += 1;
    }
    proof {
        assert forall|v: int| 0 <= v < n_verts implies (#[trigger] adj@[v])@
            =~= adjacent_triangles(tris@.take(0), v) by {
            assert(tris@.take(0) =~= Seq::<[usize; 3]>::empty());
        }
    }

    let mut t: usize = 0;
    while t < tris.len()
        invariant
            t <= tris@.len(),
            adj@.len() == n_verts,
            forall|t2: int|
                0 <= t2 < tris@.len() ==> (#[trigger] tris@[t2])@[0] < n_verts && tris@[t2]@[1]
                    < n_verts && tris@[t2]@[2] < n_verts,
            forall|v: int|
                0 <= v < n_verts ==> (#[trigger] adj@[v])@ =~= adjacent_triangles(
                    tris@.take(t as int),
                    v,
                ),
        decreases tris@.len() - t,
    {
        let ghost a0 = adj@;
        let tri = tris[t];
        let v0 = tri[0];
        adj[v0].push(t);
        let ghost a1 = adj@;
        let v1 = tri[1];
        adj[v1].push(t);
        let ghost a2 = adj@;
        let v2 = tri[2];
        adj[v2].push(t);
        proof {
            assert(tris@.take(t as int + 1) =~= tris@.take(t as int).push(tris@[t as int]));
            assert(tris@.take(t as int + 1).drop_last() =~= tris@.take(t as int));
            assert forall|v: int| 0 <= v < n_verts implies (#[trigger] adj@[v])@
                =~= adjacent_triangles(tris@.take(t as int + 1), v) by {
                assert(a1[v]@ == if v == v0 {
                    a0[v]@.push(t)
                } else {
                    a0[v]@
                });
                assert(a2[v]@ == if v == v1 {
                    a1[v]@.push(t)
                } else {
                    a1[v]@
                });
                assert(adj@[v]@ == if v == v2 {
                    a2[v]@.push(t)
                } else {
                    a2[v]@
                });
                assert(adjacent_triangles(tris@.take(t as int + 1), v) == adjacent_triangles(
                    tris@.take(t as int),
                    v,
                ) + corner_occurrences(tris@[t as int], t as int, v));
                assert(adj@[v]@ =~= a0[v]@ + corner_occurrences(tris@[t as int], t as int, v));
            }
        }
        t += 1;
    }
    proof {
        assert(tris@.take(tris@.len() as int) =~= tris@);
        assert forall|v: int| 0 <= v < n_verts implies (#[trigger] adj@[v])@
            == adjacent_triangles(tris@, v) by {
            assert(adj@[v]@ =~= adjacent_triangles(tris@.take(tris@.len() as int), v));
        }
    }
    adj
}

} // verus!
