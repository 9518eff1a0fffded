//! The binary STL format, as a source of vertices.
//!
//! A file is 80 bytes of header, a little-endian 32-bit triangle count, and
//! then one 50-byte record per triangle: a normal (12 bytes), three vertices
//! (12 bytes each) and two bytes of attributes. Only the vertices are read.

use vstd::prelude::*;
use crate::key::{window, Keyed, LoadError, VertexKey};
use crate::order::{greater, highest, lesser, lowest, NEG_INFINITY, POS_INFINITY};
use crate::words::{decode, le_u32, le_word};

verus! {

/// Bytes before the triangle count.
pub const HEADER_SIZE: usize = 80;

/// Bytes before the first triangle: the header and the count.
pub const PREFIX_SIZE: usize = 84;

/// Bytes in one triangle record.
pub const TRIANGLE_SIZE: usize = 50;

/// The bytes of an STL file, looked at as a source of vertices.
///
/// Nothing is checked when the view is made: `check` does that, and the
/// other methods are for views that passed it.
#[derive(Clone, Copy)]
pub struct StlView<'a>(pub &'a [u8]);

/// The values along one axis (0, 1 or 2) of every slot of a source, in slot order.
pub open spec fn source_axis<M: Keyed + ?Sized>(mesh: &M, k: int) -> Seq<u32> {
    Seq::new(mesh.spec_len(), |i: int| decode(window(mesh, i))[k])
}

impl<'a> StlView<'a> {
    /// The triangle count that the file announces.
    pub open spec fn declared(&self) -> nat
        recommends
            self.0@.len() >= 84,
    {
        le_word(self.0@.subrange(80, 84))
    }

    /// The bounding box of every vertex in the file, duplicates included:
    /// first the lower corner, then the upper one.
    pub fn bounds(&self) -> (b: ([u32; 3], [u32; 3]))
        requires
            self.fault() is None,
        ensures
            forall|k: int|
                0 <= k < 3 ==> #[trigger] b.0@[k] == lowest(source_axis(self, k)) && b.1@[k]
                    == highest(source_axis(self, k)),
    {
        let mut lower: [u32; 3] = [POS_INFINITY, POS_INFINITY, POS_INFINITY];
        let mut upper: [u32; 3] = [NEG_INFINITY, NEG_INFINITY, NEG_INFINITY];
        let count: u32 = self.len();
        let mut v: u32 = 0;
        while v < count
            invariant
                v <= count,
                count == self.spec_len(),
                self.fault() is None,
                forall|k: int|
                    0 <= k < 3 ==> #[trigger] lower@[k] == lowest(
                        source_axis(self, k).take(v as int),
                    ) && upper@[k] == highest(source_axis(self, k).take(v as int)),
            decreases count - v,
        {
            let key = self.key(v);
            let p = key.words();
            proof {
                self.lemma_slot(v as int);
                assert(key.bytes() == window(self, v as int));
                assert forall|k: int| 0 <= k < 3 implies #[trigger] source_axis(self, k).take(
                    v + 1,
                ).drop_last() == source_axis(self, k).take(v as int) && source_axis(
                    self,
                    k,
                ).take(v + 1).last() == p@[k] by {
                    assert(source_axis(self, k).take(v + 1).drop_last() =~= source_axis(
                        self,
                        k,
                    ).take(v as int));
                }
            }
            lower = [lesser(lower[0], p[0]), lesser(lower[1], p[1]), lesser(lower[2], p[2])];
            upper = [greater(upper[0], p[0]), greater(upper[1], p[1]), greater(upper[2], p[2])];
            v = v + 1;
        }
        proof {
            assert forall|k: int| 0 <= k < 3 implies #[trigger] source_axis(self, k).take(
                count as int,
            ) == source_axis(self, k) by {
                assert(source_axis(self, k).take(count as int) =~= source_axis(self, k));
            }
        }
        (lower, upper)
    }
}

impl<'a> Keyed for StlView<'a> {
    open spec fn backing(&self) -> Seq<u8> {
        self.0@
    }

    open spec fn spec_len(&self) -> nat {
        3 * self.declared()
    }

    open spec fn position(&self, v: int) -> int {
        84 + (v / 3) * 50 + 12 + (v % 3) * 12
    }

    open spec fn slot_at(&self, offset: int) -> int {
        let past = offset - 84;
        let triangle = past / 50;
        let corner = (past - triangle * 50 - 12) / 12;
        triangle * 3 + corner
    }

    open spec fn fault(&self) -> Option<LoadError> {
        if self.0@.len() < 84 || self.0@.len() < 84 + 50 * self.declared() {
            Some(LoadError::TruncatedInput)
        } else if 3 * self.declared() > u32::MAX {
            Some(LoadError::TooManyVertices)
        } else {
            None
        }
    }

    proof fn lemma_slot(&self, v: int) {
        let triangle = v / 3;
        let corner = v % 3;
        let past = triangle * 50 + 12 + corner * 12;
        assert(self.position(v) - 84 == past);
        assert(past / 50 == triangle) by (nonlinear_arith)
            requires
                past == triangle * 50 + 12 + corner * 12,
                0 <= corner < 3,
                0 <= triangle,
        ;
        assert((corner * 12) / 12 == corner);
        assert(triangle < self.declared());
        assert(50 * triangle + 50 <= 50 * self.declared());
    }

    fn check(&self) -> (r: Result<(), LoadError>) {
        let n = self.0.len();
        if n < PREFIX_SIZE {
            return Err(LoadError::TruncatedInput);
        }
        let triangles: u32 = match le_u32(&self.0[HEADER_SIZE..n]) {
            Some(count) => count,
            None => {
                return Err(LoadError::TruncatedInput);
            },
        };
        assert(self.0@.subrange(80, n as int).subrange(0, 4) =~= self.0@.subrange(80, 84));
        assert(triangles == self.declared()) by {
            assert(le_word(self.0@.subrange(80, n as int)) == le_word(self.0@.subrange(80, 84)));
        }
        let needed: u64 = 84 + 50 * (triangles as u64);
        if (n as u64) < needed {
            Err(LoadError::TruncatedInput)
        } else if triangles > u32::MAX / 3 {
            Err(LoadError::TooManyVertices)
        } else {
            Ok(())
        }
    }

    fn key(&self, v: u32) -> (k: VertexKey<'_>) {
        let triangle = (v / 3) as usize;
        let vertex = (v % 3) as usize;
        proof {
            self.lemma_slot(v as int);
        }
        let n = self.0.len();
        let i =
        // Header and number of triangles
        PREFIX_SIZE
        // Skipped triangles
         + triangle * TRIANGLE_SIZE
        // Normal
         + 12
        // Skipped vertices
         + vertex * 12;
        VertexKey::new(self.0, i)
    }

    fn index(&self, k: &VertexKey) -> (v: u32) {
        proof {
            let w = choose|w: int|
                0 <= w < self.spec_len() && #[trigger] self.position(w) == k.spec_offset();
            self.lemma_slot(w);
        }
        // Skip the header and the triangle count
        let mut diff = k.offset() - PREFIX_SIZE;
        // Pick out which triangle this vertex lives in
        let tri = diff / TRIANGLE_SIZE;
        diff = diff - tri * TRIANGLE_SIZE;
        // Skip the normal
        diff = diff - 12;
        let vert = diff / 12;
        (tri * 3 + vert) as u32
    }

    fn len(&self) -> (n: u32) {
        let size = self.0.len();
        match le_u32(&self.0[HEADER_SIZE..size]) {
            Some(triangles) => {
                assert(le_word(self.0@.subrange(80, size as int)) == le_word(
                    self.0@.subrange(80, 84),
                ));
                triangles * 3
            },
            None => 0,
        }
    }
}

} // verus!
