//! Index-buffer utilities for procedurally generated triangle meshes.

use vstd::prelude::*;

verus! {

/// A triple of values: the three vertex indices of a triangle, or the three
/// components of a point.
#[derive(Clone, Copy, Debug, PartialEq, Eq, Structural)]
pub struct Vec3<T> {
    pub x: T,
    pub y: T,
    pub z: T,
}

impl<T> Vec3<T> {
    /// Builds a triple from its three components.
    pub fn new(x: T, y: T, z: T) -> (r: Vec3<T>)
        ensures
            r == (Vec3 { x, y, z }),
    {
        Vec3 { x, y, z }
    }
}

/// The two counterclockwise triangles that cover the quad with corners
/// `ul`, `ur`, `dl`, `dr`.
pub open spec fn rectangle_tris<T>(ul: T, ur: T, dl: T, dr: T) -> Seq<Vec3<T>> {
    seq![Vec3 { x: ul, y: dl, z: dr }, Vec3 { x: dr, y: ur, z: ul }]
}

/// Given four corner points, pushes two counterclockwise triangles to `out`.
pub fn push_rectangle_indices<T: Copy>(ul: T, ur: T, dl: T, dr: T, out: &mut Vec<Vec3<T>>)
    ensures
        final(out)@ == old(out)@ + rectangle_tris(ul, ur, dl, dr),
{
    out.push(Vec3::new(ul, dl, dr));
    out.push(Vec3::new(dr, ur, ul));
    proof {
        assert(final(out)@ =~= old(out)@ + rectangle_tris(ul, ur, dl, dr));
    }
}


/// The triangles joining the first `m + 1` points of a lower circle starting
/// at index `bl` to those of an upper circle starting at `bu`: one quad for
/// each pair of consecutive points.
pub open spec fn open_ring_tris(bl: u32, bu: u32, m: nat) -> Seq<Vec3<u32>>
    decreases m,
{
    if m == 0 {
        seq![]
    } else {
        let i = m - 1;
        open_ring_tris(bl, bu, (m - 1) as nat) + rectangle_tris(
            (bu + i + 1) as u32,
            (bu + i) as u32,
            (bl + i + 1) as u32,
            (bl + i) as u32,
        )
    }
}

/// The triangles joining a point at index `point` to the first `m + 1` points
/// of a circle starting at index `bc`.
pub open spec fn open_fan_tris(bc: u32, point: u32, m: nat) -> Seq<Vec3<u32>>
    decreases m,
{
    if m == 0 {
        seq![]
    } else {
        let i = m - 1;
        open_fan_tris(bc, point, (m - 1) as nat).push(
            Vec3 { x: (bc + i) as u32, y: point, z: (bc + i + 1) as u32 },
        )
    }
}

/// The triangles `(bc, bc + k, bc + k + 1)` for `k` in `1 .. m + 1`.
pub open spec fn filled_circle_tris(bc: u32, m: nat) -> Seq<Vec3<u32>>
    decreases m,
{
    if m == 0 {
        seq![]
    } else {
        let k = m;
        filled_circle_tris(bc, (m - 1) as nat).push(
            Vec3 { x: bc, y: (bc + k) as u32, z: (bc + k + 1) as u32 },
        )
    }
}

/// Creates the faces joining two circles with the same discretization,
/// leaving the gap between their last and first points open.
pub fn push_open_ring_indices(
    base_lower_circle: u32,
    base_upper_circle: u32,
    nsubdiv: u32,
    out: &mut Vec<Vec3<u32>>,
)
    requires
        nsubdiv > 0,
        base_lower_circle + nsubdiv - 1 <= u32::MAX,
        base_upper_circle + nsubdiv - 1 <= u32::MAX,
    ensures
        final(out)@ == old(out)@ + open_ring_tris(
            base_lower_circle,
            base_upper_circle,
            (nsubdiv - 1) as nat,
        ),
{
    let ghost start = out@;
    let mut i: u32 = 0;
    while i < nsubdiv - 1
        invariant
            0 <= i <= nsubdiv - 1,
            nsubdiv > 0,
            base_lower_circle + nsubdiv - 1 <= u32::MAX,
            base_upper_circle + nsubdiv - 1 <= u32::MAX,
            out@ == start + open_ring_tris(base_lower_circle, base_upper_circle, i as nat),
        decreases nsubdiv - 1 - i,
    {
        let bli = base_lower_circle + i;
        let bui = base_upper_circle + i;
        push_rectangle_indices(bui + 1, bui, bli + 1, bli, out);
        i = i + 1;
        proof {
            assert(out@ =~= start + open_ring_tris(base_lower_circle, base_upper_circle, i as nat));
        }
    }
}

/// Creates the faces joining two circles with the same discretization,
/// closing the ring between their last and first points.
pub fn push_ring_indices(
    base_lower_circle: u32,
    base_upper_circle: u32,
    nsubdiv: u32,
    out: &mut Vec<Vec3<u32>>,
)
    requires
        nsubdiv > 0,
        base_lower_circle + nsubdiv - 1 <= u32::MAX,
        base_upper_circle + nsubdiv - 1 <= u32::MAX,
    ensures
        final(out)@ == old(out)@ + open_ring_tris(
            base_lower_circle,
            base_upper_circle,
            (nsubdiv - 1) as nat,
        ) + rectangle_tris(
            base_upper_circle,
            (base_upper_circle + nsubdiv - 1) as u32,
            base_lower_circle,
            (base_lower_circle + nsubdiv - 1) as u32,
        ),
{
    push_open_ring_indices(base_lower_circle, base_upper_circle, nsubdiv, out);
    push_rectangle_indices(
        base_upper_circle,
        base_upper_circle + (nsubdiv - 1),
        base_lower_circle,
        base_lower_circle + (nsubdiv - 1),
        out,
    );
}

/// Creates the faces joining a circle to a point shared by all triangles,
/// leaving the gap between the circle's last and first points open.
pub fn push_degenerate_open_top_ring_indices(
    base_circle: u32,
    point: u32,
    nsubdiv: u32,
    out: &mut Vec<Vec3<u32>>,
)
    requires
        nsubdiv > 0,
        base_circle + nsubdiv - 1 <= u32::MAX,
    ensures
        final(out)@ == old(out)@ + open_fan_tris(base_circle, point, (nsubdiv - 1) as nat),
{
    let ghost start = out@;
    let mut i: u32 = 0;
    while i < nsubdiv - 1
        invariant
            0 <= i <= nsubdiv - 1,
            nsubdiv > 0,
            base_circle + nsubdiv - 1 <= u32::MAX,
            out@ == start + open_fan_tris(base_circle, point, i as nat),
        decreases nsubdiv - 1 - i,
    {
        out.push(Vec3::new(base_circle + i, point, base_circle + i + 1));
        i = i + 1;
        proof {
            assert(out@ =~= start + open_fan_tris(base_circle, point, i as nat));
        }
    }
}

/// Creates the faces joining a circle to a point shared by all triangles,
/// closing the fan between the circle's last and first points.
pub fn push_degenerate_top_ring_indices(
    base_circle: u32,
    point: u32,
    nsubdiv: u32,
    out: &mut Vec<Vec3<u32>>,
)
    requires
        nsubdiv > 0,
        base_circle + nsubdiv - 1 <= u32::MAX,
    ensures
        final(out)@ == old(out)@ + open_fan_tris(base_circle, point, (nsubdiv - 1) as nat).push(
            Vec3 { x: (base_circle + nsubdiv - 1) as u32, y: point, z: base_circle },
        ),
{
    push_degenerate_open_top_ring_indices(base_circle, point, nsubdiv, out);
    out.push(Vec3::new(base_circle + (nsubdiv - 1), point, base_circle));
    proof {
        assert(final(out)@ =~= old(out)@ + open_fan_tris(
            base_circle,
            point,
            (nsubdiv - 1) as nat,
        ).push(Vec3 { x: (base_circle + nsubdiv - 1) as u32, y: point, z: base_circle }));
    }
}

/// Pushes the triangles that fill a circle of `nsubdiv` points starting at
/// index `base_circle`, each sharing the point `base_circle`: `nsubdiv - 2`
/// triangles, none when the circle has fewer than three points.
pub fn push_filled_circle_indices(base_circle: u32, nsubdiv: u32, out: &mut Vec<Vec3<u32>>)
    requires
        base_circle + nsubdiv <= u32::MAX + 1,
    ensures
        final(out)@ == old(out)@ + filled_circle_tris(
            base_circle,
            if nsubdiv >= 2 { (nsubdiv - 2) as nat } else { 0 },
        ),
{
    let ghost start = out@;
    let mut k: u32 = 1;
    while k + 1 < nsubdiv
        invariant
            1 <= k,
            k <= nsubdiv - 1 || (k == 1 && nsubdiv <= 1),
            base_circle + nsubdiv <= u32::MAX + 1,
            out@ == start + filled_circle_tris(base_circle, (k - 1) as nat),
        decreases nsubdiv - k,
    {
        out.push(Vec3::new(base_circle, base_circle + k, base_circle + k + 1));
        k = k + 1;
        proof {
            assert(out@ =~= start + filled_circle_tris(base_circle, (k - 1) as nat));
        }
    }
}

/// Each triangle with its first two indices swapped.
pub open spec fn reversed_tris(s: Seq<Vec3<u32>>) -> Seq<Vec3<u32>> {
    s.map_values(|t: Vec3<u32>| Vec3 { x: t.y, y: t.x, z: t.z })
}

/// Reverses the orientation of a set of faces by swapping the first two
/// indices of each.
pub fn reverse_clockwising(indices: &mut [Vec3<u32>])
    ensures
        final(indices)@ == reversed_tris(old(indices)@),
{
    let ghost start = indices@;
    let n = indices.len();
    let mut i: usize = 0;
    while i < n
        invariant
            0 <= i <= n,
            n == start.len(),
            indices@.len() == n,
            forall|j: int| 0 <= j < i ==> indices@[j] == reversed_tris(start)[j],
            forall|j: int| i <= j < n ==> indices@[j] == start[j],
        decreases n - i,
    {
        let t = indices[i];
        indices[i] = Vec3::new(t.y, t.x, t.z);
        i = i + 1;
    }
    proof {
        assert(indices@ =~= reversed_tris(start));
    }
}

/// One triple per index: the index repeated three times.
pub open spec fn repeated(v: u32) -> Vec3<u32> {
    Vec3 { x: v, y: v, z: v }
}

/// Duplicates the indices of each triangle: `(a, b, c)` becomes
/// `((a, a, a), (b, b, b), (c, c, c))`.
pub fn split_index_buffer(indices: &[Vec3<u32>]) -> (r: Vec<Vec3<Vec3<u32>>>)
    ensures
        r@.len() == indices@.len(),
        forall|j: int|
            0 <= j < indices@.len() ==> #[trigger] r@[j] == (Vec3 {
                x: repeated(indices@[j].x),
                y: repeated(indices@[j].y),
                z: repeated(indices@[j].z),
            }),
{
    let mut resi: Vec<Vec3<Vec3<u32>>> = Vec::new();
    let mut i: usize = 0;
    while i < indices.len()
        invariant
            0 <= i <= indices@.len(),
            resi@.len() == i,
            forall|j: int|
                0 <= j < i ==> #[trigger] resi@[j] == (Vec3 {
                    x: repeated(indices@[j].x),
                    y: repeated(indices@[j].y),
                    z: repeated(indices@[j].z),
                }),
        decreases indices@.len() - i,
    {
        let v = indices[i];
        resi.push(
            Vec3::new(Vec3::new(v.x, v.x, v.x), Vec3::new(v.y, v.y, v.y), Vec3::new(v.z, v.z, v.z)),
        );
        i = i + 1;
    }
    resi
}


/// No value occurs twice in `s`.
pub open spec fn all_distinct<T>(s: Seq<T>) -> bool {
    forall|a: int, b: int| 0 <= a < b < s.len() ==> s[a] != s[b]
}

/// The triangle `t` of `coords` recorded with its new vertex identifiers:
/// each corner becomes `(id, index, index)`, where `id` names, in
/// `new_coords`, the coordinate that the input index names in `coords`.
pub open spec fn recovered_tri(
    coords: Seq<Vec3<u64>>,
    new_coords: Seq<Vec3<u64>>,
    t: Vec3<u32>,
    o: Vec3<Vec3<u32>>,
) -> bool {
    &&& o.x.y == t.x && o.x.z == t.x
    &&& o.y.y == t.y && o.y.z == t.y
    &&& o.z.y == t.z && o.z.z == t.z
    &&& o.x.x < new_coords.len() && new_coords[o.x.x as int] == coords[t.x as int]
    &&& o.y.x < new_coords.len() && new_coords[o.y.x as int] == coords[t.y as int]
    &&& o.z.x < new_coords.len() && new_coords[o.z.x as int] == coords[t.z as int]
}

/// The identifier `k` is given to some corner of `o`.
pub open spec fn uses_id(o: Vec3<Vec3<u32>>, k: int) -> bool {
    o.x.x == k || o.y.x == k || o.z.x == k
}

/// The identifier `k` is given to some corner of some triangle of `out`.
pub open spec fn id_used(out: Seq<Vec3<Vec3<u32>>>, k: int) -> bool {
    exists|j: int| 0 <= j < out.len() && uses_id(#[trigger] out[j], k)
}

/// Every index of every triangle names an element of `coords`.
pub open spec fn indices_in_bounds(indices: Seq<Vec3<u32>>, n: int) -> bool {
    forall|j: int|
        0 <= j < indices.len() ==> (#[trigger] indices[j]).x < n && indices[j].y < n
            && indices[j].z < n
}

/// The identifier of `coord` in `new_coords`, which is extended by `coord`
/// when it does not hold it yet.
fn resolve_coord_id(coord: Vec3<u64>, new_coords: &mut Vec<Vec3<u64>>) -> (id: u32)
    requires
        old(new_coords)@.len() < u32::MAX,
        all_distinct(old(new_coords)@),
    ensures
        all_distinct(final(new_coords)@),
        id < final(new_coords)@.len(),
        final(new_coords)@[id as int] == coord,
        final(new_coords)@ == old(new_coords)@ || final(new_coords)@ == old(new_coords)@.push(
            coord,
        ),
        final(new_coords)@.len() > old(new_coords)@.len() ==> id == old(new_coords)@.len(),
{
    let mut k: usize = 0;
    while k < new_coords.len()
        invariant
            0 <= k <= new_coords@.len(),
            new_coords@.len() < u32::MAX,
            new_coords@ == old(new_coords)@,
            all_distinct(new_coords@),
            forall|m: int| 0 <= m < k ==> new_coords@[m] != coord,
        decreases new_coords@.len() - k,
    {
        if new_coords[k] == coord {
            return k as u32;
        }
        k = k + 1;
    }
    let id = new_coords.len() as u32;
    new_coords.push(coord);
    id
}

/// Duplicates the indices of each triangle, giving the same identifier to
/// each vertex with identical coordinates: triangle `(a, b, c)` becomes
/// `((ia, a, a), (ib, b, b), (ic, c, c))`, where `ia` names the coordinate of
/// `a` in the returned list of distinct coordinates.  Coordinates are
/// compared by their bit patterns.
pub fn split_index_buffer_and_recover_topology(
    indices: &[Vec3<u32>],
    coords: &[Vec3<u64>],
) -> (r: (Vec<Vec3<Vec3<u32>>>, Vec<Vec3<u64>>))
    requires
        indices_in_bounds(indices@, coords@.len() as int),
        3 * indices@.len() < u32::MAX,
    ensures
        r.0@.len() == indices@.len(),
        all_distinct(r.1@),
        forall|j: int|
            0 <= j < indices@.len() ==> recovered_tri(coords@, r.1@, indices@[j], #[trigger] r.0@[j]),
        forall|k: int| 0 <= k < r.1@.len() ==> #[trigger] id_used(r.0@, k),
{
    let mut new_coords: Vec<Vec3<u64>> = Vec::new();
    let mut out: Vec<Vec3<Vec3<u32>>> = Vec::new();
    let mut i: usize = 0;
    while i < indices.len()
        invariant
            0 <= i <= indices@.len(),
            3 * indices@.len() < u32::MAX,
            indices_in_bounds(indices@, coords@.len() as int),
            out@.len() == i,
            new_coords@.len() <= 3 * i,
            all_distinct(new_coords@),
            forall|j: int| 0 <= j < i ==> recovered_tri(coords@, new_coords@, indices@[j], #[trigger] out@[j]),
            forall|k: int| 0 <= k < new_coords@.len() ==> #[trigger] id_used(out@, k),
        decreases indices@.len() - i,
    {
        let t = indices[i];
        assert(indices_in_bounds(indices@, coords@.len() as int));
        assert(t.x < coords@.len() && t.y < coords@.len() && t.z < coords@.len());
        let ghost n0 = new_coords@;
        let va = resolve_coord_id(coords[t.x as usize], &mut new_coords);
        let ghost n1 = new_coords@;
        let vb = resolve_coord_id(coords[t.y as usize], &mut new_coords);
        let ghost n2 = new_coords@;
        let vc = resolve_coord_id(coords[t.z as usize], &mut new_coords);
        let o = Vec3::new(Vec3::new(va, t.x, t.x), Vec3::new(vb, t.y, t.y), Vec3::new(vc, t.z, t.z));
        let ghost out0 = out@;
        out.push(o);
        proof {
            assert(out@.drop_last() =~= out0);
            assert(n0.is_prefix_of(new_coords@));
            assert forall|j: int| 0 <= j < i + 1 implies recovered_tri(coords@, new_coords@, indices@[j], #[trigger] out@[j]) by {
                if j < i {
                    assert(recovered_tri(coords@, n0, indices@[j], out@[j]));
                }
            }
            assert forall|k: int| 0 <= k < new_coords@.len() implies #[trigger] id_used(out@, k) by {
                if k < n0.len() {
                    assert(id_used(out@.drop_last(), k));
                    let j0 = choose|j: int| 0 <= j < i && uses_id(#[trigger] out@.drop_last()[j], k);
                    assert(out@[j0] == out@.drop_last()[j0]);
                } else {
                    assert(o.x.x == va && o.y.x == vb && o.z.x == vc);
                    assert(out@[i as int] == o);
                    assert(k == va || k == vb || k == vc);
                    assert(uses_id(out@[i as int], k));
                }
            }
        }
        i = i + 1;
    }
    (out, new_coords)
}

} // verus!
