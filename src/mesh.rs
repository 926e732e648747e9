use vstd::prelude::*;
use std::collections::HashMap;
use crate::geometry::Vertex;
use crate::label::child_indexes;
use crate::ratio::{Ratio, lemma_le_transitive};
use crate::rtin::{RtinData, RtinTriangle, node_fits, vertex_in_grid, MAX_GRID_SIZE};

verus! {

broadcast use vstd::std_specs::hash::group_hash_axioms;

/// An indexed triangle list: three entries of `indices` per triangle, each a
/// position in `vertices`.
#[derive(Debug, Clone)]
pub struct MeshData {
    pub vertices: Vec<Vertex>,
    pub indices: Vec<u32>,
}

/// The indices that the descent from node `i` emits: the node itself when its
/// error is within `eps` or it has no children in the hierarchy, else what
/// its two children emit.
pub open spec fn selected(tris: Seq<RtinTriangle>, eps: Ratio, i: int) -> Seq<u32>
    decreases tris.len() - i,
{
    if i < 0 || i >= tris.len() {
        seq![]
    } else if tris[i].error.le_spec(&eps) {
        seq![i as u32]
    } else if 2 * i + 1 >= tris.len() {
        seq![i as u32]
    } else {
        selected(tris, eps, 2 * i + 1) + selected(tris, eps, 2 * i + 2)
    }
}

/// The triangles a threshold keeps, from the two base triangles down.
pub open spec fn selection(tris: Seq<RtinTriangle>, eps: Ratio) -> Seq<u32> {
    selected(tris, eps, 1) + selected(tris, eps, 2)
}

/// The corners of the triangles `sel`, three per triangle, in order.
pub open spec fn corners_of(tris: Seq<RtinTriangle>, sel: Seq<u32>) -> Seq<Vertex>
    decreases sel.len(),
{
    if sel.len() == 0 {
        seq![]
    } else {
        corners_of(tris, sel.drop_last()) + tris[sel.last() as int].vertices.corners()
    }
}

pub open spec fn same_position(v: Vertex, w: Vertex) -> bool {
    v.x == w.x && v.y == w.y
}

pub open spec fn has_position(s: Seq<Vertex>, v: Vertex) -> bool {
    exists|k: int| 0 <= k < s.len() && same_position(#[trigger] s[k], v)
}

/// The first vertex of `s` at each lattice position, in order of first
/// appearance.
pub open spec fn first_at_each_position(s: Seq<Vertex>) -> Seq<Vertex>
    decreases s.len(),
{
    if s.len() == 0 {
        seq![]
    } else {
        let d = first_at_each_position(s.drop_last());
        if has_position(d, s.last()) {
            d
        } else {
            d.push(s.last())
        }
    }
}

pub open spec fn distinct_positions(s: Seq<Vertex>) -> bool {
    forall|i: int, j: int|
        0 <= i < j < s.len() ==> !same_position(#[trigger] s[i], #[trigger] s[j])
}

/// `m` is the mesh of the triangles `sel`: their corners, one vertex per
/// lattice position, and three indices per triangle pointing at them.
pub open spec fn is_mesh_of(m: MeshData, tris: Seq<RtinTriangle>, sel: Seq<u32>) -> bool {
    let flat = corners_of(tris, sel);
    &&& m.vertices@ == first_at_each_position(flat)
    &&& m.indices@.len() == flat.len()
    &&& forall|j: int|
        0 <= j < flat.len() ==> (#[trigger] m.indices@[j]) < m.vertices@.len() && same_position(
            m.vertices@[m.indices@[j] as int],
            flat[j],
        )
}

pub open spec fn all_below(s: Seq<u32>, lo: int, hi: int) -> bool {
    forall|k: int| 0 <= k < s.len() ==> lo <= #[trigger] s[k] < hi
}

proof fn lemma_selected_range(tris: Seq<RtinTriangle>, eps: Ratio, i: int)
    requires
        i >= 0,
        tris.len() <= 0x8000_0000,
    ensures
        all_below(selected(tris, eps, i), i, tris.len() as int),
    decreases tris.len() - i,
{
    if i < tris.len() && !tris[i].error.le_spec(&eps) && 2 * i + 1 < tris.len() {
        lemma_selected_range(tris, eps, 2 * i + 1);
        lemma_selected_range(tris, eps, 2 * i + 2);
        let s = selected(tris, eps, i);
        let l = selected(tris, eps, 2 * i + 1);
        assert forall|k: int| 0 <= k < s.len() implies i <= #[trigger] s[k] < tris.len() by {
            if k >= l.len() {
                assert(s[k] == selected(tris, eps, 2 * i + 2)[k - l.len()]);
            }
        }
    }
}

proof fn lemma_corners_len(tris: Seq<RtinTriangle>, sel: Seq<u32>)
    ensures
        corners_of(tris, sel).len() == 3 * sel.len(),
    decreases sel.len(),
{
    if sel.len() > 0 {
        lemma_corners_len(tris, sel.drop_last());
    }
}

proof fn lemma_corners_push(tris: Seq<RtinTriangle>, sel: Seq<u32>, i: u32)
    ensures
        corners_of(tris, sel.push(i)) == corners_of(tris, sel) + tris[i as int].vertices.corners(),
{
    assert(sel.push(i).drop_last() =~= sel);
}

proof fn lemma_corners_in_grid(tris: Seq<RtinTriangle>, sel: Seq<u32>, s: u32)
    requires
        all_below(sel, 0, tris.len() as int),
        forall|i: int| 0 <= i < tris.len() ==> #[trigger] node_fits(tris[i], s),
    ensures
        forall|k: int|
            0 <= k < corners_of(tris, sel).len() ==> vertex_in_grid(
                #[trigger] corners_of(tris, sel)[k],
                s,
            ),
    decreases sel.len(),
{
    if sel.len() > 0 {
        lemma_corners_in_grid(tris, sel.drop_last(), s);
        assert(node_fits(tris[sel.last() as int], s));
        lemma_corners_len(tris, sel.drop_last());
    }
}

proof fn lemma_first_distinct(s: Seq<Vertex>)
    ensures
        distinct_positions(first_at_each_position(s)),
    decreases s.len(),
{
    if s.len() > 0 {
        lemma_first_distinct(s.drop_last());
        let d = first_at_each_position(s.drop_last());
        if !has_position(d, s.last()) {
            let e = d.push(s.last());
            assert forall|i: int, j: int| 0 <= i < j < e.len() implies !same_position(
                #[trigger] e[i],
                #[trigger] e[j],
            ) by {
                if j == d.len() {
                    if same_position(e[i], e[j]) {
                        assert(same_position(d[i], s.last()));
                    }
                }
            }
        }
    }
}

/// `y * s + x` tells lattice points of a grid of side `s` apart.
proof fn lemma_key_injective(x1: int, y1: int, x2: int, y2: int, s: int)
    requires
        0 <= x1 < s,
        0 <= x2 < s,
        0 <= y1,
        0 <= y2,
        y1 * s + x1 == y2 * s + x2,
    ensures
        x1 == x2,
        y1 == y2,
{
    assert(y1 == y2) by (nonlinear_arith)
        requires
            0 <= x1 < s,
            0 <= x2 < s,
            0 <= y1,
            0 <= y2,
            y1 * s + x1 == y2 * s + x2,
    {
        if y1 < y2 {
            assert(y1 * s + s <= y2 * s);
        } else if y2 < y1 {
            assert(y2 * s + s <= y1 * s);
        }
    }
}

pub open spec fn vertex_key(v: Vertex, s: u32) -> int {
    v.y * s + v.x
}

/// Emits, after what `triangles` already holds, the indices that the descent
/// from node `idx` selects at threshold `threshold`.
pub fn threshold_triangle(
    threshold: Ratio,
    idx: u32,
    rtin_data: &RtinData,
    triangles: &mut Vec<u32>,
)
    requires
        rtin_data.wf(),
        threshold.wf(),
    ensures
        final(triangles)@ == old(triangles)@ + selected(
            rtin_data.triangles@,
            threshold,
            idx as int,
        ),
    decreases rtin_data.triangles@.len() - idx,
{
    if idx as usize >= rtin_data.triangles.len() {
        return;
    }
    let err = rtin_data.triangles[idx as usize].error;
    proof {
        assert(node_fits(rtin_data.triangles@[idx as int], rtin_data.grid_size));
    }
    if err.le(&threshold) {
        triangles.push(idx);
        return;
    }
    if idx as u64 * 2 + 1 >= rtin_data.triangles.len() as u64 {
        // a leaf: nothing below it to refine into
        triangles.push(idx);
        return;
    }
    let (l, r) = child_indexes(idx);
    threshold_triangle(threshold, l, rtin_data, triangles);
    threshold_triangle(threshold, r, rtin_data, triangles);
    proof {
        assert(final(triangles)@ =~= old(triangles)@ + selected(
            rtin_data.triangles@,
            threshold,
            idx as int,
        ));
    }
}

/// The indices of the triangles whose error is within `error_threshold`, or
/// that are leaves, reached from the two base triangles.
pub fn thresholded_triangles(error_threshold: Ratio, rtin_data: &RtinData) -> (r: Vec<u32>)
    requires
        rtin_data.wf(),
        error_threshold.wf(),
    ensures
        r@ == selection(rtin_data.triangles@, error_threshold),
{
    let mut triangles: Vec<u32> = Vec::new();
    // index 0 stands for the undivided square and is never emitted
    threshold_triangle(error_threshold, 1, rtin_data, &mut triangles);
    threshold_triangle(error_threshold, 2, rtin_data, &mut triangles);
    proof {
        assert(triangles@ =~= selection(rtin_data.triangles@, error_threshold));
    }
    triangles
}

/// A seen position maps to the place of its vertex, and only seen positions
/// are mapped.
pub open spec fn lookup_matches(lookup: Map<u32, usize>, vertices: Seq<Vertex>, s: u32) -> bool {
    &&& forall|p: int|
        0 <= p < vertices.len() ==> lookup.contains_key(#[trigger] vertex_key(vertices[p], s) as u32)
            && lookup[vertex_key(vertices[p], s) as u32] == p
    &&& forall|k: u32|
        #[trigger] lookup.contains_key(k) ==> exists|p: int|
            0 <= p < vertices.len() && vertex_key(vertices[p], s) == k
}

/// The assembly state after the corners `done`.
pub open spec fn assembled(
    lookup: Map<u32, usize>,
    vertices: Seq<Vertex>,
    indices: Seq<u32>,
    done: Seq<Vertex>,
    s: u32,
) -> bool {
    &&& vertices == first_at_each_position(done)
    &&& indices.len() == done.len()
    &&& forall|j: int|
        0 <= j < done.len() ==> (#[trigger] indices[j]) < vertices.len() && same_position(
            vertices[indices[j] as int],
            done[j],
        )
    &&& forall|p: int| 0 <= p < vertices.len() ==> vertex_in_grid(#[trigger] vertices[p], s)
    &&& every_vertex_used(vertices, indices)
    &&& lookup_matches(lookup, vertices, s)
}

pub open spec fn is_used(indices: Seq<u32>, p: int) -> bool {
    exists|j: int| 0 <= j < indices.len() && #[trigger] indices[j] == p
}

pub open spec fn every_vertex_used(vertices: Seq<Vertex>, indices: Seq<u32>) -> bool {
    forall|p: int| 0 <= p < vertices.len() ==> #[trigger] is_used(indices, p)
}

proof fn lemma_used_push(vertices: Seq<Vertex>, indices: Seq<u32>, i: u32)
    requires
        every_vertex_used(vertices, indices),
    ensures
        every_vertex_used(vertices, indices.push(i)),
{
    assert forall|p: int| 0 <= p < vertices.len() implies #[trigger] is_used(indices.push(i), p) by {
        assert(is_used(indices, p));
        let j = choose|j: int| 0 <= j < indices.len() && #[trigger] indices[j] == p;
        assert(indices.push(i)[j] == indices[j]);
    }
}

/// Vertices at distinct positions of a grid of side `s` number at most `s^2`.
proof fn lemma_distinct_in_grid_len(vs: Seq<Vertex>, s: u32)
    requires
        distinct_positions(vs),
        forall|p: int| 0 <= p < vs.len() ==> vertex_in_grid(#[trigger] vs[p], s),
    ensures
        vs.len() <= s * s,
{
    let keys = vs.map_values(|v: Vertex| vertex_key(v, s));
    assert forall|i: int, j: int| 0 <= i < keys.len() && 0 <= j < keys.len() && i != j implies keys[i]
        != keys[j] by {
        assert(vertex_in_grid(vs[i], s) && vertex_in_grid(vs[j], s));
        if keys[i] == keys[j] {
            lemma_key_injective(vs[i].x as int, vs[i].y as int, vs[j].x as int, vs[j].y as int, s as int);
            if i < j {
                assert(!same_position(vs[i], vs[j]));
            } else {
                assert(!same_position(vs[j], vs[i]));
            }
        }
    }
    keys.unique_seq_to_set();
    let range = vstd::set_lib::set_int_range(0, s * s);
    assert forall|k: int| keys.to_set().contains(k) implies range.contains(k) by {
        let p = choose|p: int| 0 <= p < keys.len() && keys[p] == k;
        assert(vertex_in_grid(vs[p], s));
        crate::heightmap::lemma_grid_offset(vs[p].x as int, vs[p].y as int, s as int, s as int);
    }
    vstd::set_lib::lemma_int_range(0, s * s);
    vstd::set_lib::lemma_len_subset(keys.to_set(), range);
}

/// Adds one corner: reuses the vertex already at its position, or appends it.
fn push_vertex(
    v: Vertex,
    grid_size: u32,
    lookup: &mut HashMap<u32, usize>,
    vertices: &mut Vec<Vertex>,
    indices: &mut Vec<u32>,
    Ghost(done): Ghost<Seq<Vertex>>,
)
    requires
        1 <= grid_size <= MAX_GRID_SIZE,
        vertex_in_grid(v, grid_size),
        assembled(old(lookup)@, old(vertices)@, old(indices)@, done, grid_size),
    ensures
        assembled(final(lookup)@, final(vertices)@, final(indices)@, done.push(v), grid_size),
{
    proof {
        crate::heightmap::lemma_grid_offset(v.x as int, v.y as int, grid_size as int, grid_size as int);
        assert(grid_size * grid_size <= 0x4001_0001) by (nonlinear_arith)
            requires
                grid_size <= MAX_GRID_SIZE,
        ;
        lemma_first_distinct(done);
        lemma_distinct_in_grid_len(vertices@, grid_size);
        assert(done.push(v).drop_last() =~= done);
    }
    let v_id: u32 = v.y * grid_size + v.x;
    let ghost vs = vertices@;
    if lookup.contains_key(&v_id) {
        let v_idx: usize = *lookup.get(&v_id).unwrap();
        proof {
            let p = choose|p: int| 0 <= p < vs.len() && vertex_key(vs[p], grid_size) == v_id;
            assert(vertex_in_grid(vs[p], grid_size));
            lemma_key_injective(vs[p].x as int, vs[p].y as int, v.x as int, v.y as int, grid_size as int);
            assert(same_position(vs[p], v));
            assert(has_position(vs, v));
            assert(vertex_key(vs[p], grid_size) as u32 == v_id);
            lemma_used_push(vs, indices@, v_idx as u32);
        }
        indices.push(v_idx as u32);
    } else {
        let end = vertices.len();
        proof {
            assert forall|p: int| 0 <= p < vs.len() implies !same_position(#[trigger] vs[p], v) by {
                if same_position(vs[p], v) {
                    assert(lookup@.contains_key(vertex_key(vs[p], grid_size) as u32));
                }
            }
        }
        let ghost old_indices = indices@;
        vertices.push(v);
        lookup.insert(v_id, end);
        indices.push(end as u32);
        proof {
            let nv = vertices@;
            lemma_used_push(vs, old_indices, end as u32);
            assert forall|p: int| 0 <= p < nv.len() implies #[trigger] is_used(indices@, p) by {
                if p == vs.len() {
                    assert(indices@[old_indices.len() as int] == p);
                } else {
                    assert(is_used(indices@, p));
                }
            }
            assert forall|p: int| 0 <= p < nv.len() implies lookup@.contains_key(
                #[trigger] vertex_key(nv[p], grid_size) as u32,
            ) && lookup@[vertex_key(nv[p], grid_size) as u32] == p by {
                if p < vs.len() {
                    assert(nv[p] == vs[p]);
                    assert(vertex_in_grid(vs[p], grid_size));
                    crate::heightmap::lemma_grid_offset(vs[p].x as int, vs[p].y as int, grid_size as int, grid_size as int);
                    if vertex_key(vs[p], grid_size) as u32 == v_id {
                        lemma_key_injective(vs[p].x as int, vs[p].y as int, v.x as int, v.y as int, grid_size as int);
                        assert(same_position(vs[p], v));
                    }
                }
            }
            assert forall|k: u32| #[trigger] lookup@.contains_key(k) implies exists|p: int|
                0 <= p < nv.len() && vertex_key(nv[p], grid_size) == k by {
                if k == v_id {
                    assert(vertex_key(nv[vs.len() as int], grid_size) == k);
                } else {
                    let p = choose|p: int| 0 <= p < vs.len() && vertex_key(vs[p], grid_size) == k;
                    assert(nv[p] == vs[p]);
                }
            }
        }
    }
}

/// The mesh of the triangles that `error_threshold` selects: one vertex per
/// lattice position, in order of first use, and three indices per triangle.
pub fn thresholded_mesh_data(error_threshold: Ratio, rtin_data: &RtinData) -> (m: MeshData)
    requires
        rtin_data.wf(),
        error_threshold.wf(),
    ensures
        is_mesh_of(m, rtin_data.triangles@, selection(rtin_data.triangles@, error_threshold)),
        m.indices@.len() == 3 * selection(rtin_data.triangles@, error_threshold).len(),
        m.indices@.len() % 3 == 0,
        forall|j: int| 0 <= j < m.indices@.len() ==> #[trigger] m.indices@[j] < m.vertices@.len(),
        distinct_positions(m.vertices@),
        every_vertex_used(m.vertices@, m.indices@),
{
    let ghost tris = rtin_data.triangles@;
    let ghost s = rtin_data.grid_size;
    let triangle_indices = thresholded_triangles(error_threshold, rtin_data);
    let ghost sel = triangle_indices@;
    proof {
        lemma_selected_range(tris, error_threshold, 1);
        lemma_selected_range(tris, error_threshold, 2);
        assert(all_below(sel, 0, tris.len() as int)) by {
            let l = selected(tris, error_threshold, 1);
            assert forall|k: int| 0 <= k < sel.len() implies 0 <= #[trigger] sel[k] < tris.len() by {
                if k >= l.len() {
                    assert(sel[k] == selected(tris, error_threshold, 2)[k - l.len()]);
                }
            }
        }
        assert forall|i: int| 0 <= i < tris.len() implies #[trigger] node_fits(tris[i], s) by {
            assert(node_fits(rtin_data.triangles@[i], rtin_data.grid_size));
        }
    }
    let mut indices: Vec<u32> = Vec::new();
    let mut vertices: Vec<Vertex> = Vec::new();
    let mut vertice_lookup = HashMap::<u32, usize>::new();
    let mut q: usize = 0;
    proof {
        assert(sel.take(0) =~= Seq::<u32>::empty());
    }
    while q < triangle_indices.len()
        invariant
            rtin_data.wf(),
            tris == rtin_data.triangles@,
            s == rtin_data.grid_size,
            sel == triangle_indices@,
            all_below(sel, 0, tris.len() as int),
            forall|i: int| 0 <= i < tris.len() ==> #[trigger] node_fits(tris[i], s),
            q <= sel.len(),
            assembled(
                vertice_lookup@,
                vertices@,
                indices@,
                corners_of(tris, sel.take(q as int)),
                s,
            ),
        decreases sel.len() - q,
    {
        let idx = triangle_indices[q];
        let t = &rtin_data.triangles[idx as usize];
        proof {
            assert(0 <= sel[q as int] < tris.len());
            assert(node_fits(tris[idx as int], s));
        }
        let ghost base = corners_of(tris, sel.take(q as int));
        let mut it = t.vertices.into_iter();
        proof {
            assert(base + t.vertices.corners().take(0) =~= base);
        }
        while it.pos < 3
            invariant
                rtin_data.wf(),
                s == rtin_data.grid_size,
                node_fits(*t, s),
                it.t.corners() == t.vertices.corners(),
                it.pos <= 3,
                assembled(
                    vertice_lookup@,
                    vertices@,
                    indices@,
                    base + t.vertices.corners().take(it.pos as int),
                    s,
                ),
            decreases 3 - it.pos,
        {
            let ghost pos = it.pos;
            let v = it.next().unwrap();
            proof {
                assert(base + t.vertices.corners().take(pos + 1) =~= (base + t.vertices.corners().take(
                    pos as int,
                )).push(*v));
            }
            push_vertex(
                *v,
                rtin_data.grid_size,
                &mut vertice_lookup,
                &mut vertices,
                &mut indices,
                Ghost(base + t.vertices.corners().take(pos as int)),
            );
        }
        proof {
            assert(t.vertices.corners().take(3) =~= t.vertices.corners());
            assert(sel.take(q + 1) =~= sel.take(q as int).push(idx));
            lemma_corners_push(tris, sel.take(q as int), idx);
        }
        q = q + 1;
    }
    proof {
        assert(sel.take(q as int) =~= sel);
        lemma_corners_len(tris, sel);
        lemma_first_distinct(corners_of(tris, sel));
        assert forall|j: int| 0 <= j < indices@.len() implies #[trigger] indices@[j] < vertices@.len() by {
            assert(indices@[j] < vertices@.len());
        }
    }
    MeshData { vertices, indices }
}

proof fn lemma_selected_nonempty(tris: Seq<RtinTriangle>, eps: Ratio, i: int)
    requires
        0 <= i < tris.len(),
    ensures
        selected(tris, eps, i).len() >= 1,
    decreases tris.len() - i,
{
    if !tris[i].error.le_spec(&eps) && 2 * i + 1 < tris.len() {
        lemma_selected_nonempty(tris, eps, 2 * i + 1);
    }
}

proof fn lemma_selected_monotone(tris: Seq<RtinTriangle>, e1: Ratio, e2: Ratio, i: int)
    requires
        i >= 0,
        e1.wf(),
        e2.wf(),
        e1.le_spec(&e2),
        forall|k: int| 0 <= k < tris.len() ==> (#[trigger] tris[k]).error.wf(),
    ensures
        selected(tris, e1, i).len() >= selected(tris, e2, i).len(),
    decreases tris.len() - i,
{
    if 0 <= i < tris.len() {
        let err = tris[i].error;
        assert(err.wf());
        if err.le_spec(&e1) {
            lemma_le_transitive(err, e1, e2);
        } else if 2 * i + 1 < tris.len() {
            lemma_selected_nonempty(tris, e1, 2 * i + 1);
            lemma_selected_monotone(tris, e1, e2, 2 * i + 1);
            lemma_selected_monotone(tris, e1, e2, 2 * i + 2);
        }
    }
}

/// A larger threshold never gives more mesh indices: for `e1 <= e2` the mesh
/// at `e1` has at least as many indices as the mesh at `e2`.
pub proof fn lemma_mesh_monotone(rtin_data: RtinData, e1: Ratio, e2: Ratio)
    requires
        rtin_data.wf(),
        e1.wf(),
        e2.wf(),
        e1.le_spec(&e2),
    ensures
        3 * selection(rtin_data.triangles@, e1).len() >= 3 * selection(rtin_data.triangles@, e2).len(),
        corners_of(rtin_data.triangles@, selection(rtin_data.triangles@, e1)).len() >= corners_of(
            rtin_data.triangles@,
            selection(rtin_data.triangles@, e2),
        ).len(),
{
    let tris = rtin_data.triangles@;
    assert forall|k: int| 0 <= k < tris.len() implies (#[trigger] tris[k]).error.wf() by {
        assert(node_fits(rtin_data.triangles@[k], rtin_data.grid_size));
    }
    lemma_selected_monotone(tris, e1, e2, 1);
    lemma_selected_monotone(tris, e1, e2, 2);
    lemma_corners_len(tris, selection(tris, e1));
    lemma_corners_len(tris, selection(tris, e2));
}

/// Whether node `i` lies on the path from the root to node `j`, `j` included.
pub open spec fn is_ancestor(i: int, j: int) -> bool
    decreases j,
{
    if j == i {
        true
    } else if j <= i || j <= 0 {
        false
    } else {
        is_ancestor(i, (j - 1) / 2)
    }
}

proof fn lemma_ancestor_le(i: int, j: int)
    requires
        is_ancestor(i, j),
    ensures
        i <= j,
    decreases j,
{
    if j != i && j > 0 && j > i {
        lemma_ancestor_le(i, (j - 1) / 2);
    }
}

proof fn lemma_ancestor_child(i: int, j: int)
    requires
        0 <= i < j,
        is_ancestor(i, j),
    ensures
        is_ancestor(2 * i + 1, j) || is_ancestor(2 * i + 2, j),
    decreases j,
{
    let p = (j - 1) / 2;
    lemma_ancestor_le(i, p);
    if p != i {
        lemma_ancestor_child(i, p);
        assert(is_ancestor(2 * i + 1, p) ==> is_ancestor(2 * i + 1, j));
        assert(is_ancestor(2 * i + 2, p) ==> is_ancestor(2 * i + 2, j));
    }
}

proof fn lemma_base_ancestor(j: int)
    requires
        j >= 1,
    ensures
        is_ancestor(1, j) || is_ancestor(2, j),
    decreases j,
{
    if j > 2 {
        lemma_base_ancestor((j - 1) / 2);
    }
}

proof fn lemma_leaf_reached(tris: Seq<RtinTriangle>, eps: Ratio, i: int, j: int)
    requires
        1 <= i <= j,
        is_ancestor(i, j),
        tris.len() % 2 == 0,
        tris.len() <= 0x8000_0000,
        tris.len() / 2 <= j < tris.len(),
        forall|k: int| 1 <= k < tris.len() / 2 ==> !(#[trigger] tris[k]).error.le_spec(&eps),
    ensures
        selected(tris, eps, i).contains(j as u32),
    decreases tris.len() - i,
{
    if i == j {
        assert(selected(tris, eps, i)[0] == j as u32);
    } else {
        lemma_ancestor_le(i, (j - 1) / 2);
        lemma_ancestor_child(i, j);
        let l = selected(tris, eps, 2 * i + 1);
        let r = selected(tris, eps, 2 * i + 2);
        if is_ancestor(2 * i + 1, j) {
            lemma_leaf_reached(tris, eps, 2 * i + 1, j);
            let k = choose|k: int| 0 <= k < l.len() && l[k] == j as u32;
            assert((l + r)[k] == j as u32);
        } else {
            lemma_leaf_reached(tris, eps, 2 * i + 2, j);
            let k = choose|k: int| 0 <= k < r.len() && r[k] == j as u32;
            assert((l + r)[l.len() + k] == j as u32);
        }
    }
}

proof fn lemma_only_leaves(tris: Seq<RtinTriangle>, eps: Ratio, i: int)
    requires
        i >= 1,
        tris.len() % 2 == 0,
        tris.len() <= 0x8000_0000,
        eps.wf(),
        eps.num == 0,
        forall|k: int| 1 <= k < tris.len() / 2 ==> (#[trigger] tris[k]).error.num > 0,
    ensures
        all_below(selected(tris, eps, i), (tris.len() / 2) as int, tris.len() as int),
    decreases tris.len() - i,
{
    if i < tris.len() {
        if tris[i].error.le_spec(&eps) {
            if i < tris.len() / 2 {
                assert(tris[i].error.num > 0);
                assert(tris[i].error.num * eps.den > 0) by (nonlinear_arith)
                    requires
                        tris[i].error.num > 0,
                        eps.den > 0,
                ;
            }
        } else if 2 * i + 1 < tris.len() {
            lemma_only_leaves(tris, eps, 2 * i + 1);
            lemma_only_leaves(tris, eps, 2 * i + 2);
            let s = selected(tris, eps, i);
            let l = selected(tris, eps, 2 * i + 1);
            assert forall|k: int| 0 <= k < s.len() implies tris.len() / 2 <= #[trigger] s[k]
                < tris.len() by {
                if k >= l.len() {
                    assert(s[k] == selected(tris, eps, 2 * i + 2)[k - l.len()]);
                }
            }
        }
    }
}

/// At threshold 0, when every inner node other than the root has a positive
/// error, the emitted triangles are exactly the leaves `[n / 2, n)`.
pub proof fn lemma_zero_threshold_emits_leaves(rtin_data: RtinData, eps: Ratio)
    requires
        rtin_data.wf(),
        eps.wf(),
        eps.num == 0,
        forall|k: int|
            1 <= k < rtin_data.triangles@.len() / 2 ==> (#[trigger] rtin_data.triangles@[k]).error.num
                > 0,
    ensures
        forall|j: u32|
            j < rtin_data.triangles@.len() ==> (#[trigger] selection(
                rtin_data.triangles@,
                eps,
            ).contains(j) <==> rtin_data.triangles@.len() / 2 <= j),
        forall|k: int|
            0 <= k < selection(rtin_data.triangles@, eps).len() ==> rtin_data.triangles@.len() / 2
                <= #[trigger] selection(rtin_data.triangles@, eps)[k] < rtin_data.triangles@.len(),
{
    let tris = rtin_data.triangles@;
    let n = tris.len();
    let s = rtin_data.grid_size;
    let k = crate::label::log2((s - 1) as nat);
    vstd::arithmetic::power2::lemma_pow2_unfold(2 * k + 1);
    assert(n % 2 == 0);
    let sel = selection(tris, eps);
    let l = selected(tris, eps, 1);
    let r = selected(tris, eps, 2);
    lemma_only_leaves(tris, eps, 1);
    lemma_only_leaves(tris, eps, 2);
    assert forall|q: int| 0 <= q < sel.len() implies n / 2 <= #[trigger] sel[q] < n by {
        if q >= l.len() {
            assert(sel[q] == r[q - l.len()]);
        }
    }
    assert forall|q: int| 1 <= q < n / 2 implies !(#[trigger] tris[q]).error.le_spec(&eps) by {
        assert(tris[q].error.num > 0);
        assert(tris[q].error.num * eps.den > 0) by (nonlinear_arith)
            requires
                tris[q].error.num > 0,
                eps.den > 0,
        ;
    }
    assert forall|j: u32| j < n implies (#[trigger] sel.contains(j) <==> n / 2 <= j) by {
        if n / 2 <= j {
            lemma_base_ancestor(j as int);
            if is_ancestor(1, j as int) {
                lemma_leaf_reached(tris, eps, 1, j as int);
                let q = choose|q: int| 0 <= q < l.len() && l[q] == j;
                assert(sel[q] == j);
            } else {
                lemma_leaf_reached(tris, eps, 2, j as int);
                let q = choose|q: int| 0 <= q < r.len() && r[q] == j;
                assert(sel[l.len() + q] == j);
            }
        } else if sel.contains(j) {
            let q = choose|q: int| 0 <= q < sel.len() && sel[q] == j;
            assert(n / 2 <= sel[q]);
        }
    }
}

} // verus!
