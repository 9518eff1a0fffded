//! Content-addressed vertex keys, and the sources that hand them out.

use vstd::prelude::*;
use vstd::std_specs::cmp::PartialEqSpecImpl;
use crate::words::{
    decode, lemma_decode_injective, lemma_pack_injective, pack, pack_words, parse_vec, VEC_SIZE,
};

verus! {

/// A reference to the twelve bytes of one vertex inside a backing buffer.
///
/// The key borrows the buffer and never owns it. Two keys are equal when
/// their twelve bytes are, wherever in the buffer they stand: numbers that
/// are equal but spelled with different bits are different vertices.
#[derive(Clone, Copy)]
pub struct VertexKey<'a> {
    buffer: &'a [u8],
    offset: usize,
}

impl<'a> VertexKey<'a> {
    /// The whole buffer that the key points into.
    pub closed spec fn backing(&self) -> Seq<u8> {
        self.buffer@
    }

    /// Where in the buffer the twelve bytes start.
    pub closed spec fn spec_offset(&self) -> int {
        self.offset as int
    }

    /// The twelve bytes themselves.
    pub open spec fn bytes(&self) -> Seq<u8> {
        self.backing().subrange(self.spec_offset(), self.spec_offset() + 12)
    }

    /// The twelve bytes lie inside the buffer.
    pub open spec fn in_bounds(&self) -> bool {
        0 <= self.spec_offset() && self.spec_offset() + 12 <= self.backing().len()
    }

    #[verifier::type_invariant]
    spec fn inv(self) -> bool {
        self.offset + 12 <= self.buffer@.len()
    }

    /// A key for the twelve bytes of `buffer` that start at `offset`.
    pub fn new(buffer: &'a [u8], offset: usize) -> (k: Self)
        requires
            offset + 12 <= buffer@.len(),
        ensures
            k.backing() == buffer@,
            k.spec_offset() == offset,
    {
        VertexKey { buffer, offset }
    }

    /// Where in the buffer the twelve bytes start.
    pub fn offset(&self) -> (at: usize)
        ensures
            at == self.spec_offset(),
            self.in_bounds(),
    {
        proof {
            use_type_invariant(self);
        }
        self.offset
    }

    /// The twelve bytes that the key stands for.
    pub fn get_slice(&self) -> (s: &'a [u8])
        ensures
            s@ == self.bytes(),
            self.in_bounds(),
    {
        proof {
            use_type_invariant(self);
        }
        let n = self.buffer.len();
        assert(self.offset + 12 <= n);
        &self.buffer[self.offset..self.offset + VEC_SIZE]
    }

    /// The three coordinates, as bit patterns.
    pub fn words(&self) -> (w: [u32; 3])
        ensures
            w@ == decode(self.bytes()),
            self.in_bounds(),
    {
        let s = self.get_slice();
        assert(s@.subrange(0, 12) =~= s@);
        match parse_vec(s) {
            Some(w) => w,
            None => [0, 0, 0],
        }
    }

    /// The twelve bytes as one number: equal for two keys exactly when the
    /// bytes are.
    pub fn content(&self) -> (c: u128)
        ensures
            c == pack(decode(self.bytes())),
            self.in_bounds(),
    {
        let w = self.words();
        pack_words(&w)
    }
}

/// Twelve bytes are determined by the number that `content` gives them.
pub proof fn lemma_content_injective(a: Seq<u8>, b: Seq<u8>)
    requires
        a.len() == 12,
        b.len() == 12,
        pack(decode(a)) == pack(decode(b)),
    ensures
        a == b,
{
    lemma_pack_injective(decode(a), decode(b));
    lemma_decode_injective(a, b);
}

impl<'a> PartialEq for VertexKey<'a> {
    fn eq(&self, other: &Self) -> (r: bool) {
        let a = self.content();
        let b = other.content();
        proof {
            if a == b {
                lemma_content_injective(self.bytes(), other.bytes());
            }
        }
        a == b
    }
}

impl<'a> Eq for VertexKey<'a> {}

impl<'a> PartialEqSpecImpl for VertexKey<'a> {
    open spec fn obeys_eq_spec() -> bool {
        true
    }

    open spec fn eq_spec(&self, other: &Self) -> bool {
        self.bytes() == other.bytes()
    }
}

/// Why a source cannot be indexed.
#[derive(Clone, Copy, Debug, PartialEq, Eq, Structural)]
pub enum LoadError {
    /// The buffer ends before the data that its header announces.
    TruncatedInput,
    /// There are more vertex slots than a 32-bit index can number.
    TooManyVertices,
}

/// A source of vertices: the one thing that knows how a file format lays
/// its vertices out.
///
/// A source numbers its vertex slots from zero. Each slot is twelve bytes of
/// one immutable buffer, and no two slots start at the same place, so a key
/// leads back to the slot it was made for.
pub trait Keyed {
    /// The buffer that every key of this source points into.
    spec fn backing(&self) -> Seq<u8>;

    /// How many vertex slots there are.
    spec fn spec_len(&self) -> nat;

    /// The offset in the buffer at which slot `v` starts.
    spec fn position(&self, v: int) -> int;

    /// The slot that starts at `offset`.
    spec fn slot_at(&self, offset: int) -> int;

    /// What is wrong with the source, if anything is.
    spec fn fault(&self) -> Option<LoadError>;

    /// In a source without fault every slot lies inside the buffer, and
    /// `slot_at` undoes `position`.
    proof fn lemma_slot(&self, v: int)
        requires
            self.fault() is None,
            0 <= v < self.spec_len(),
        ensures
            0 <= self.position(v),
            self.position(v) + 12 <= self.backing().len(),
            self.slot_at(self.position(v)) == v,
    ;

    /// Looks the source over before any slot is read.
    fn check(&self) -> (r: Result<(), LoadError>)
        ensures
            r == (match self.fault() {
                None => Ok::<(), LoadError>(()),
                Some(e) => Err::<(), LoadError>(e),
            }),
    ;

    /// Returns the key for a particular vertex
    fn key(&self, v: u32) -> (k: VertexKey<'_>)
        requires
            self.fault() is None,
            v < self.spec_len(),
        ensures
            k.backing() == self.backing(),
            k.spec_offset() == self.position(v as int),
    ;

    /// Returns the index of a particular vertex
    fn index(&self, k: &VertexKey) -> (v: u32)
        requires
            self.fault() is None,
            k.backing() == self.backing(),
            exists|v: int|
                0 <= v < self.spec_len() && #[trigger] self.position(v) == k.spec_offset(),
        ensures
            v == self.slot_at(k.spec_offset()),
    ;

    /// Returns the number of vertices in this buffer
    fn len(&self) -> (n: u32)
        requires
            self.fault() is None,
        ensures
            n == self.spec_len(),
    ;
}

/// `k` is a key that `mesh` made for one of its slots: what `index` asks of
/// its argument.
pub open spec fn is_key_of<M: Keyed + ?Sized>(mesh: &M, k: &VertexKey) -> bool {
    &&& k.backing() == mesh.backing()
    &&& exists|v: int| 0 <= v < mesh.spec_len() && #[trigger] mesh.position(v) == k.spec_offset()
}

/// The twelve bytes of slot `v`.
pub open spec fn window<M: Keyed + ?Sized>(mesh: &M, v: int) -> Seq<u8> {
    mesh.backing().subrange(mesh.position(v), mesh.position(v) + 12)
}

/// `r` is the earliest slot from `lo` on that holds the same bytes as slot `i`.
pub open spec fn is_first<M: Keyed + ?Sized>(mesh: &M, lo: int, r: int, i: int) -> bool {
    &&& lo <= r <= i
    &&& window(mesh, r) == window(mesh, i)
    &&& forall|j: int| lo <= j < r ==> #[trigger] window(mesh, j) != window(mesh, i)
}

/// A key leads back to the slot it was made for: for every slot `v` of a
/// source without fault, `index` of `key(v)` is `v`.
pub proof fn lemma_index_of_key<M: Keyed + ?Sized>(mesh: &M, v: int, k: &VertexKey)
    requires
        mesh.fault() is None,
        0 <= v < mesh.spec_len(),
        k.backing() == mesh.backing(),
        k.spec_offset() == mesh.position(v),
    ensures
        is_key_of(mesh, k),
        k.in_bounds(),
        k.bytes() == window(mesh, v),
        mesh.slot_at(k.spec_offset()) == v,
{
    mesh.lemma_slot(v);
}

} // verus!
