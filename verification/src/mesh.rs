//! The indexed mesh: what the whole pipeline delivers.

use vstd::prelude::*;
use vstd::relations::injective_on;
use vstd::set_lib::{lemma_int_range, lemma_map_size, set_int_range};
use crate::key::{window, Keyed};
use crate::order::{
    all_numbers, greater, highest, le, lemma_bounds_enclose, lesser, lowest, NEG_INFINITY,
    POS_INFINITY,
};
use crate::words::{decode, lemma_decode_injective};

verus! {

/// A mesh in which corners that are the same vertex share one entry.
///
/// Coordinates are kept as the bit patterns of single-precision numbers,
/// three per vertex. `triangles` holds one vertex number per corner of the
/// input, in input order, so its length is three times the triangle count.
/// `lower` and `upper` are the corners of the bounding box; for a mesh
/// without vertices they stay at positive and negative infinity, which is
/// no box at all.
pub struct IndexedMesh {
    pub vertices: Vec<u32>,
    pub triangles: Vec<u32>,
    pub lower: [u32; 3],
    pub upper: [u32; 3],
}

/// The values along one axis (0, 1 or 2) of a flat coordinate array.
pub open spec fn axis(coords: Seq<u32>, k: int) -> Seq<u32> {
    Seq::new((coords.len() / 3) as nat, |i: int| coords[3 * i + k])
}

/// The three coordinates of vertex number `t` in a flat coordinate array.
pub open spec fn point(coords: Seq<u32>, t: int) -> Seq<u32> {
    coords.subrange(3 * t, 3 * t + 3)
}

/// The distinct vertices of a source: every run of twelve bytes that one of
/// its slots holds.
pub open spec fn distinct<M: Keyed + ?Sized>(mesh: &M) -> Set<Seq<u8>> {
    Set::new(|w: Seq<u8>| exists|i: int| 0 <= i < mesh.spec_len() && #[trigger] window(mesh, i) == w)
}

impl IndexedMesh {
    /// How many vertices the mesh has.
    pub open spec fn vertex_count(&self) -> int {
        self.vertices@.len() as int / 3
    }

    /// Some corner is vertex number `t`.
    pub open spec fn uses(&self, t: int) -> bool {
        exists|i: int| 0 <= i < self.triangles@.len() && #[trigger] self.triangles@[i] == t
    }

    /// The bounding box is what folding over every vertex leaves, axis by axis.
    pub open spec fn bounded(&self) -> bool {
        forall|k: int|
            0 <= k < 3 ==> #[trigger] self.lower@[k] == lowest(axis(self.vertices@, k))
                && self.upper@[k] == highest(axis(self.vertices@, k))
    }

    /// The mesh is `mesh` indexed: every corner of `mesh` has an entry in
    /// `triangles`, the vertex it names has the coordinates of the corner,
    /// no two vertices have the same coordinates bit for bit, none is left
    /// unused, and the box bounds them all.
    ///
    /// This fixes the mesh but for the order of its vertices.
    pub open spec fn indexes<M: Keyed + ?Sized>(&self, mesh: &M) -> bool {
        let n = mesh.spec_len() as int;
        let count = self.vertex_count();
        &&& self.triangles@.len() == n
        &&& self.vertices@.len() == 3 * count
        &&& forall|i: int| 0 <= i < n ==> 0 <= (#[trigger] self.triangles@[i]) < count
        &&& forall|i: int|
            0 <= i < n ==> point(self.vertices@, (#[trigger] self.triangles@[i]) as int) == decode(
                window(mesh, i),
            )
        &&& forall|s: int, t: int|
            0 <= s < t < count ==> #[trigger] point(self.vertices@, s) != #[trigger] point(
                self.vertices@,
                t,
            )
        &&& forall|t: int| 0 <= t < count ==> #[trigger] self.uses(t)
        &&& self.bounded()
    }

    /// Topology is kept: two corners name the same vertex exactly when
    /// their twelve bytes are the same.
    pub proof fn lemma_topology<M: Keyed + ?Sized>(&self, mesh: &M, i: int, j: int)
        requires
            mesh.fault() is None,
            self.indexes(mesh),
            0 <= i < mesh.spec_len(),
            0 <= j < mesh.spec_len(),
        ensures
            self.triangles@[i] == self.triangles@[j] <==> window(mesh, i) == window(mesh, j),
    {
        mesh.lemma_slot(i);
        mesh.lemma_slot(j);
        let s = self.triangles@[i] as int;
        let t = self.triangles@[j] as int;
        assert(point(self.vertices@, s) == decode(window(mesh, i)));
        assert(point(self.vertices@, t) == decode(window(mesh, j)));
        if s == t {
            lemma_decode_injective(window(mesh, i), window(mesh, j));
        } else if s < t {
            assert(point(self.vertices@, s) != point(self.vertices@, t));
        } else {
            assert(point(self.vertices@, t) != point(self.vertices@, s));
        }
    }

    /// How a source is cut into chunks does not show in which corners share
    /// a vertex: two meshes that index the same source group its corners
    /// alike, however each of them numbers the groups.
    pub proof fn lemma_same_grouping<M: Keyed + ?Sized>(
        &self,
        other: &IndexedMesh,
        mesh: &M,
        i: int,
        j: int,
    )
        requires
            mesh.fault() is None,
            self.indexes(mesh),
            other.indexes(mesh),
            0 <= i < mesh.spec_len(),
            0 <= j < mesh.spec_len(),
        ensures
            self.triangles@[i] == self.triangles@[j] <==> other.triangles@[i] == other.triangles@[j],
    {
        self.lemma_topology(mesh, i, j);
        other.lemma_topology(mesh, i, j);
    }

    /// There are as many vertices as the source has distinct ones.
    pub proof fn lemma_vertex_count<M: Keyed + ?Sized>(&self, mesh: &M)
        requires
            mesh.fault() is None,
            self.indexes(mesh),
        ensures
            distinct(mesh).finite(),
            self.vertex_count() == distinct(mesh).len(),
            self.vertices@.len() == 3 * distinct(mesh).len(),
            self.triangles@.len() == mesh.spec_len(),
    {
        let n = mesh.spec_len() as int;
        let count = self.vertex_count();
        let corner = |t: int| choose|i: int| 0 <= i < n && #[trigger] self.triangles@[i] == t;
        let bytes = |t: int| window(mesh, corner(t));
        let numbers = set_int_range(0, count);
        lemma_int_range(0, count);
        assert forall|t: int| 0 <= t < count implies 0 <= #[trigger] corner(t) < n
            && self.triangles@[corner(t)] == t by {
            assert(self.uses(t));
        }
        assert forall|s: int, t: int|
            numbers.contains(s) && numbers.contains(t) && #[trigger] bytes(s) == #[trigger] bytes(
                t,
            ) implies s == t by {
            self.lemma_topology(mesh, corner(s), corner(t));
        }
        assert(injective_on(bytes, numbers));
        assert forall|w: Seq<u8>| distinct(mesh).contains(w) implies numbers.map(bytes).contains(
            w,
        ) by {
            let i = choose|i: int| 0 <= i < mesh.spec_len() && #[trigger] window(mesh, i) == w;
            let t = self.triangles@[i] as int;
            self.lemma_topology(mesh, corner(t), i);
            assert(numbers.contains(t) && bytes(t) == w);
        }
        assert forall|w: Seq<u8>| numbers.map(bytes).contains(w) implies distinct(mesh).contains(
            w,
        ) by {
            let t = choose|t: int| numbers.contains(t) && w == bytes(t);
            assert(window(mesh, corner(t)) == w);
        }
        assert(numbers.map(bytes) =~= distinct(mesh));
        lemma_map_size(numbers, distinct(mesh), bytes);
    }

    /// The box holds every vertex: along an axis on which every coordinate
    /// is a number, each coordinate lies between the lower and the upper
    /// corner.
    pub proof fn lemma_box_holds(&self, k: int, t: int)
        requires
            self.bounded(),
            0 <= k < 3,
            0 <= t < self.vertex_count(),
            all_numbers(axis(self.vertices@, k)),
        ensures
            le(self.lower@[k], self.vertices@[3 * t + k]),
            le(self.vertices@[3 * t + k], self.upper@[k]),
    {
        let vals = axis(self.vertices@, k);
        lemma_bounds_enclose(vals);
        assert(vals[t] == self.vertices@[3 * t + k]);
        assert(self.lower@[k] == lowest(vals));
    }

    /// Takes the two arrays and works out the bounding box.
    pub fn new(vertices: Vec<u32>, triangles: Vec<u32>) -> (out: Self)
        requires
            vertices@.len() % 3 == 0,
        ensures
            out.vertices@ == vertices@,
            out.triangles@ == triangles@,
            out.bounded(),
    {
        let mut lower: [u32; 3] = [POS_INFINITY, POS_INFINITY, POS_INFINITY];
        let mut upper: [u32; 3] = [NEG_INFINITY, NEG_INFINITY, NEG_INFINITY];
        let count: usize = vertices.len() / 3;
        let mut t: usize = 0;
        while t < count
            invariant
                t <= count,
                count * 3 == vertices@.len(),
                vertices@.len() <= usize::MAX,
                forall|k: int|
                    0 <= k < 3 ==> #[trigger] lower@[k] == lowest(axis(vertices@, k).take(t as int))
                        && upper@[k] == highest(axis(vertices@, k).take(t as int)),
            decreases count - t,
        {
            proof {
                assert forall|k: int| 0 <= k < 3 implies #[trigger] axis(vertices@, k).take(
                    t + 1,
                ).drop_last() == axis(vertices@, k).take(t as int) && axis(vertices@, k).take(
                    t + 1,
                ).last() == vertices@[3 * t + k] by {
                    assert(axis(vertices@, k).take(t + 1).drop_last() =~= axis(vertices@, k).take(
                        t as int,
                    ));
                }
            }
            let x = vertices[3 * t];
            let y = vertices[3 * t + 1];
            let z = vertices[3 * t + 2];
            lower = [lesser(lower[0], x), lesser(lower[1], y), lesser(lower[2], z)];
            upper = [greater(upper[0], x), greater(upper[1], y), greater(upper[2], z)];
            t = t + 1;
        }
        proof {
            assert forall|k: int| 0 <= k < 3 implies #[trigger] lower@[k] == lowest(
                axis(vertices@, k),
            ) && upper@[k] == highest(axis(vertices@, k)) by {
                assert(axis(vertices@, k).take(count as int) =~= axis(vertices@, k));
            }
        }
        IndexedMesh { vertices, triangles, lower, upper }
    }
}

} // verus!
