//! The indexing engine: chunks of the slot range are deduplicated on their
//! own, merged pairwise from left to right, and the one chunk that is left
//! is compacted into an indexed mesh.

use vstd::prelude::*;
use fnv::FnvHashMap;
use crate::key::{
    is_first, is_key_of, lemma_content_injective, window, Keyed, LoadError, VertexKey,
};
use crate::mesh::{point, IndexedMesh};
use crate::table::{table_entries, table_get, table_insert, table_len};
use crate::words::{decode, pack};

verus! {

/// The content of slot `i`: its twelve bytes as one number.
pub open spec fn content_of<M: Keyed + ?Sized>(mesh: &M, i: int) -> u128 {
    pack(decode(window(mesh, i))) as u128
}

/// The buffers laid end to end.
pub open spec fn joined(buffers: Seq<Vec<u32>>) -> Seq<u32>
    decreases buffers.len(),
{
    if buffers.len() == 0 {
        Seq::empty()
    } else {
        joined(buffers.drop_last()) + buffers.last()@
    }
}

/// The slot that the key of an entry stands at.
spec fn slot_of<M: Keyed + ?Sized>(mesh: &M, entry: (u128, VertexKey)) -> int {
    mesh.slot_at(entry.1.spec_offset())
}

/// `key` is the key of a slot in `lo..hi` whose content is `content` and
/// which no slot from `lo` on precedes with the same bytes.
pub open spec fn names_first<M: Keyed + ?Sized>(
    mesh: &M,
    lo: int,
    hi: int,
    content: u128,
    key: VertexKey,
) -> bool {
    let r = mesh.slot_at(key.spec_offset());
    &&& key.backing() == mesh.backing()
    &&& lo <= r < hi
    &&& mesh.position(r) == key.spec_offset()
    &&& content_of(mesh, r) == content
    &&& is_first(mesh, lo, r, r)
}

/// `slots` and `keys` are what deduplicating the slots `lo..hi` of `mesh`
/// among themselves gives: `slots` holds, for each slot of the range in
/// order, the earliest slot of the range with the same bytes, and `keys`
/// holds, under each content that occurs in the range and under nothing
/// else, the key of the earliest slot with that content.
pub open spec fn deduplicated<M: Keyed + ?Sized>(
    mesh: &M,
    lo: int,
    hi: int,
    slots: Seq<u32>,
    keys: Map<u128, VertexKey>,
) -> bool {
    &&& 0 <= lo <= hi <= mesh.spec_len()
    &&& slots.len() == hi - lo
    &&& forall|p: int| 0 <= p < hi - lo ==> is_first(mesh, lo, #[trigger] slots[p] as int, lo + p)
    &&& forall|i: int| lo <= i < hi ==> keys.contains_key(#[trigger] content_of(mesh, i))
    &&& forall|c: u128| #[trigger] keys.contains_key(c) ==> names_first(mesh, lo, hi, c, keys[c])
    &&& keys.dom().finite()
    &&& keys.dom().len() <= hi - lo
}

/// `entries` lists `keys`: every entry once, and nothing else.
spec fn lists(entries: Seq<(u128, VertexKey)>, keys: Map<u128, VertexKey>) -> bool {
    &&& forall|u: int|
        0 <= u < entries.len() ==> keys.contains_key((#[trigger] entries[u]).0) && keys[entries[u].0]
            == entries[u].1
    &&& forall|u: int, w: int|
        0 <= u < w < entries.len() ==> (#[trigger] entries[u]).0 != (#[trigger] entries[w]).0
    &&& forall|c: u128| #[trigger]
        keys.contains_key(c) ==> exists|u: int|
            0 <= u < entries.len() && (#[trigger] entries[u]).0 == c
}

/// What an entry of the later chunk becomes in a merge: the slot that `remap`
/// names for it, stored one too high, or the entry itself where `remap`
/// holds zero.
spec fn remapped(remap: Seq<u32>, min: int, v: u32) -> u32 {
    if remap[v - min] != 0 {
        (remap[v - min] - 1) as u32
    } else {
        v
    }
}

/// After the first `t` entries have been folded into it, `set` holds what
/// `mine` held, and each of those entries whose content `mine` lacked.
spec fn absorbed(
    mine: Map<u128, VertexKey>,
    entries: Seq<(u128, VertexKey)>,
    set: Map<u128, VertexKey>,
    t: int,
) -> bool {
    &&& forall|c: u128|
        set.contains_key(c) <==> mine.contains_key(c) || exists|u: int|
            0 <= u < t && (#[trigger] entries[u]).0 == c
    &&& forall|c: u128| mine.contains_key(c) ==> #[trigger] set[c] == mine[c]
    &&& forall|u: int|
        0 <= u < t && !mine.contains_key((#[trigger] entries[u]).0) ==> set[entries[u].0]
            == entries[u].1
}

/// After the first `t` entries have been looked at, `remap` holds, at the
/// slot of each of them whose content `mine` has too, the slot of the key
/// in `mine`, one too high. At the slot of any other entry it holds zero.
spec fn aliased<M: Keyed + ?Sized>(
    mesh: &M,
    mine: Map<u128, VertexKey>,
    entries: Seq<(u128, VertexKey)>,
    remap: Seq<u32>,
    min: int,
    t: int,
) -> bool {
    forall|u: int|
        0 <= u < entries.len() ==> remap[slot_of(mesh, #[trigger] entries[u]) - min] == (if u < t
            && mine.contains_key(entries[u].0) {
            mesh.slot_at(mine[entries[u].0].spec_offset()) + 1
        } else {
            0
        })
}

/// One more buffer at the end adds its entries at the end.
proof fn lemma_joined_push(buffers: Seq<Vec<u32>>, last: Vec<u32>)
    ensures
        joined(buffers.push(last)) == joined(buffers) + last@,
{
    assert(buffers.push(last).drop_last() =~= buffers);
}

/// Two lists of buffers, one after the other, lay their entries out one
/// after the other.
proof fn lemma_joined_concat(a: Seq<Vec<u32>>, b: Seq<Vec<u32>>)
    ensures
        joined(a + b) == joined(a) + joined(b),
    decreases b.len(),
{
    if b.len() == 0 {
        assert(a + b =~= a);
        assert(joined(a) + joined(b) =~= joined(a));
    } else {
        assert((a + b).drop_last() =~= a + b.drop_last());
        lemma_joined_concat(a, b.drop_last());
        assert(joined(a + b) =~= joined(a) + joined(b));
    }
}

/// Every entry of every buffer is an entry of the whole.
proof fn lemma_joined_member(buffers: Seq<Vec<u32>>, x: int, p: int)
    requires
        0 <= x < buffers.len(),
        0 <= p < buffers[x]@.len(),
    ensures
        exists|q: int| 0 <= q < joined(buffers).len() && joined(buffers)[q] == buffers[x]@[p],
    decreases buffers.len(),
{
    let front = buffers.drop_last();
    if x == buffers.len() - 1 {
        let q = joined(front).len() + p;
        assert(joined(buffers)[q] == buffers[x]@[p]);
    } else {
        lemma_joined_member(front, x, p);
        let q = choose|q: int| 0 <= q < joined(front).len() && joined(front)[q] == front[x]@[p];
        assert(joined(buffers)[q] == buffers[x]@[p]);
    }
}

/// Buffers rewritten entry by entry give the whole rewritten entry by entry.
proof fn lemma_joined_pointwise(
    before: Seq<Vec<u32>>,
    after: Seq<Vec<u32>>,
    f: spec_fn(u32) -> u32,
)
    requires
        after.len() == before.len(),
        forall|x: int| 0 <= x < before.len() ==> (#[trigger] after[x])@.len() == before[x]@.len(),
        forall|x: int, p: int|
            0 <= x < before.len() && 0 <= p < before[x]@.len() ==> #[trigger] after[x]@[p] == f(
                before[x]@[p],
            ),
    ensures
        joined(after).len() == joined(before).len(),
        forall|q: int|
            0 <= q < joined(before).len() ==> #[trigger] joined(after)[q] == f(joined(before)[q]),
    decreases before.len(),
{
    if before.len() > 0 {
        let last = before.len() - 1;
        lemma_joined_pointwise(before.drop_last(), after.drop_last(), f);
        assert(after.last()@.len() == before.last()@.len()) by {
            assert(after[last]@.len() == before[last]@.len());
        }
        assert forall|q: int| 0 <= q < joined(before).len() implies #[trigger] joined(after)[q]
            == f(joined(before)[q]) by {
            let cut = joined(before.drop_last()).len();
            if q >= cut {
                assert(after[last]@[q - cut] == f(before[last]@[q - cut]));
            }
        }
    }
}

/// The content of twelve bytes fits in 96 bits.
proof fn lemma_content_bound(s: Seq<u8>)
    ensures
        pack(decode(s)) < 0x1_0000_0000_0000_0000_0000_0000,
{
}

/// Slots with the same content hold the same bytes.
proof fn lemma_same_content<M: Keyed + ?Sized>(mesh: &M, i: int, j: int)
    requires
        mesh.fault() is None,
        0 <= i < mesh.spec_len(),
        0 <= j < mesh.spec_len(),
        content_of(mesh, i) == content_of(mesh, j),
    ensures
        window(mesh, i) == window(mesh, j),
{
    mesh.lemma_slot(i);
    mesh.lemma_slot(j);
    lemma_content_bound(window(mesh, i));
    lemma_content_bound(window(mesh, j));
    lemma_content_injective(window(mesh, i), window(mesh, j));
}

/// The representative of slot `i` is the slot of one of the listed keys,
/// the one listed under the content of `i`.
proof fn lemma_listed<M: Keyed + ?Sized>(
    mesh: &M,
    lo: int,
    hi: int,
    slots: Seq<u32>,
    keys: Map<u128, VertexKey>,
    entries: Seq<(u128, VertexKey)>,
    q: int,
)
    requires
        mesh.fault() is None,
        deduplicated(mesh, lo, hi, slots, keys),
        lists(entries, keys),
        0 <= q < hi - lo,
    ensures
        exists|u: int|
            0 <= u < entries.len() && slot_of(mesh, #[trigger] entries[u]) == slots[q]
                && entries[u].0 == content_of(mesh, lo + q),
{
    let i = lo + q;
    let v = slots[q] as int;
    let c = content_of(mesh, i);
    assert(is_first(mesh, lo, v, lo + q));
    assert(keys.contains_key(c));
    let u = choose|u: int| 0 <= u < entries.len() && (#[trigger] entries[u]).0 == c;
    let r = slot_of(mesh, entries[u]);
    assert(names_first(mesh, lo, hi, c, keys[c]));
    lemma_same_content(mesh, r, i);
    if r < v {
        assert(window(mesh, r) != window(mesh, i));
    }
    if v < r {
        assert(window(mesh, v) != window(mesh, r));
    }
}

/// A list of a finite table is as long as the table is large.
proof fn lemma_lists_len(entries: Seq<(u128, VertexKey)>, keys: Map<u128, VertexKey>)
    requires
        lists(entries, keys),
    ensures
        entries.len() == keys.dom().len(),
{
    let contents = entries.map_values(|e: (u128, VertexKey)| e.0);
    assert forall|u: int, w: int|
        0 <= u < contents.len() && 0 <= w < contents.len() && u != w implies contents[u]
        != contents[w] by {
        if u < w {
            assert(entries[u].0 != entries[w].0);
        } else {
            assert(entries[w].0 != entries[u].0);
        }
    }
    assert(contents.to_set() =~= keys.dom()) by {
        assert forall|c: u128| keys.dom().contains(c) implies contents.to_set().contains(c) by {
            let u = choose|u: int| 0 <= u < entries.len() && (#[trigger] entries[u]).0 == c;
            assert(contents[u] == c);
        }
        assert forall|c: u128| contents.to_set().contains(c) implies keys.dom().contains(c) by {
            let u = choose|u: int| 0 <= u < contents.len() && contents[u] == c;
            assert(keys.contains_key(entries[u].0));
        }
    }
    contents.unique_seq_to_set();
}

/// The entries of a merged chunk are representatives over both ranges.
proof fn lemma_merged_slots<M: Keyed + ?Sized>(
    mesh: &M,
    lo: int,
    mid: int,
    hi: int,
    mine: Map<u128, VertexKey>,
    mine_slots: Seq<u32>,
    theirs: Map<u128, VertexKey>,
    their_slots: Seq<u32>,
    entries: Seq<(u128, VertexKey)>,
    remap: Seq<u32>,
    min: int,
    slots: Seq<u32>,
)
    requires
        mesh.fault() is None,
        deduplicated(mesh, lo, mid, mine_slots, mine),
        deduplicated(mesh, mid, hi, their_slots, theirs),
        lists(entries, theirs),
        aliased(mesh, mine, entries, remap, min, entries.len() as int),
        slots.len() == hi - lo,
        forall|p: int| 0 <= p < mid - lo ==> #[trigger] slots[p] == mine_slots[p],
        forall|q: int|
            0 <= q < hi - mid ==> #[trigger] slots[mid - lo + q] == remapped(
                remap,
                min,
                their_slots[q],
            ),
    ensures
        forall|p: int| 0 <= p < hi - lo ==> is_first(mesh, lo, #[trigger] slots[p] as int, lo + p),
{
    assert forall|p: int| 0 <= p < hi - lo implies is_first(
        mesh,
        lo,
        #[trigger] slots[p] as int,
        lo + p,
    ) by {
        if p < mid - lo {
            assert(slots[p] == mine_slots[p]);
            assert(is_first(mesh, lo, mine_slots[p] as int, lo + p));
        } else {
            let q = p - (mid - lo);
            let i = mid + q;
            let v = their_slots[q];
            assert(slots[mid - lo + q] == remapped(remap, min, v));
            assert(is_first(mesh, mid, v as int, i));
            lemma_listed(mesh, mid, hi, their_slots, theirs, entries, q);
            let u = choose|u: int|
                0 <= u < entries.len() && slot_of(mesh, #[trigger] entries[u]) == their_slots[q]
                    && entries[u].0 == content_of(mesh, mid + q);
            let c = entries[u].0;
            if mine.contains_key(c) {
                let r = mesh.slot_at(mine[c].spec_offset());
                assert(names_first(mesh, lo, mid, c, mine[c]));
                lemma_same_content(mesh, r, i);
                assert(remapped(remap, min, v) == r);
            } else {
                assert(remapped(remap, min, v) == v);
                assert forall|j: int| lo <= j < v implies #[trigger] window(mesh, j) != window(
                    mesh,
                    i,
                ) by {
                    if j < mid {
                        assert(mine.contains_key(content_of(mesh, j)));
                    }
                }
            }
        }
    }
}

/// The keys of a merged chunk are those of the representatives over both
/// ranges.
proof fn lemma_merged_keys<M: Keyed + ?Sized>(
    mesh: &M,
    lo: int,
    mid: int,
    hi: int,
    mine: Map<u128, VertexKey>,
    mine_slots: Seq<u32>,
    theirs: Map<u128, VertexKey>,
    their_slots: Seq<u32>,
    entries: Seq<(u128, VertexKey)>,
    set: Map<u128, VertexKey>,
)
    requires
        mesh.fault() is None,
        deduplicated(mesh, lo, mid, mine_slots, mine),
        deduplicated(mesh, mid, hi, their_slots, theirs),
        lists(entries, theirs),
        absorbed(mine, entries, set, entries.len() as int),
    ensures
        forall|i: int| lo <= i < hi ==> set.contains_key(#[trigger] content_of(mesh, i)),
        forall|c: u128| #[trigger] set.contains_key(c) ==> names_first(mesh, lo, hi, c, set[c]),
        set.dom().finite(),
        set.dom().len() <= hi - lo,
{
    assert forall|i: int| lo <= i < hi implies set.contains_key(#[trigger] content_of(mesh, i)) by {
        let c = content_of(mesh, i);
        if i >= mid {
            assert(theirs.contains_key(c));
            let u = choose|u: int| 0 <= u < entries.len() && (#[trigger] entries[u]).0 == c;
        } else {
            assert(mine.contains_key(c));
        }
    }
    assert forall|c: u128| #[trigger] set.contains_key(c) implies names_first(
        mesh,
        lo,
        hi,
        c,
        set[c],
    ) by {
        if mine.contains_key(c) {
            assert(set[c] == mine[c]);
            assert(names_first(mesh, lo, mid, c, mine[c]));
        } else {
            let u = choose|u: int| 0 <= u < entries.len() && (#[trigger] entries[u]).0 == c;
            let key = entries[u].1;
            assert(set[entries[u].0] == key);
            assert(theirs.contains_key(c) && theirs[c] == key);
            assert(names_first(mesh, mid, hi, c, key));
            let r = mesh.slot_at(key.spec_offset());
            assert forall|j: int| lo <= j < r implies #[trigger] window(mesh, j) != window(
                mesh,
                r,
            ) by {
                if j < mid {
                    assert(mine.contains_key(content_of(mesh, j)));
                }
            }
        }
    }
    assert(set.dom() =~= mine.dom().union(theirs.dom())) by {
        assert forall|c: u128| theirs.contains_key(c) implies set.contains_key(c) by {
            let u = choose|u: int| 0 <= u < entries.len() && (#[trigger] entries[u]).0 == c;
        }
    }
    vstd::set_lib::lemma_len_union(mine.dom(), theirs.dom());
}

/// One worker's share of the work: the slots `start..end`, deduplicated
/// among themselves.
///
/// Every slot of the range has an entry in one of the buffers, in slot
/// order, and the buffers follow one another. The entry of a slot is its
/// representative: the earliest slot of the range that holds the same bytes.
/// The set holds one key per distinct content in the range, the key of its
/// representative.
pub struct Chunk<'a> {
    set: FnvHashMap<u128, VertexKey<'a>>,
    vs: Vec<Vec<u32>>,
    start: u32,
    end: u32,
}

impl<'a> Chunk<'a> {
    /// The first slot of the range.
    pub closed spec fn spec_start(&self) -> int {
        self.start as int
    }

    /// The slot after the last one of the range.
    pub closed spec fn spec_end(&self) -> int {
        self.end as int
    }

    /// The representatives, one per slot of the range.
    pub closed spec fn slots(&self) -> Seq<u32> {
        joined(self.vs@)
    }

    /// The keys of the representatives, by content.
    pub closed spec fn keys(&self) -> Map<u128, VertexKey<'a>> {
        self.set@
    }

    /// The chunk covers no slot.
    pub open spec fn is_void(&self) -> bool {
        self.spec_start() == self.spec_end()
    }

    /// The chunk is what deduplicating the slots `start..end` of `mesh`
    /// among themselves gives.
    pub open spec fn covers<M: Keyed + ?Sized>(&self, mesh: &M) -> bool {
        deduplicated(mesh, self.spec_start(), self.spec_end(), self.slots(), self.keys())
    }

    /// A chunk that covers no slot.
    pub fn empty() -> (c: Self)
        ensures
            c.spec_start() == 0,
            c.spec_end() == 0,
            c.slots() == Seq::<u32>::empty(),
            c.keys() == Map::<u128, VertexKey>::empty(),
    {
        Self { set: FnvHashMap::default(), vs: Vec::new(), start: 0, end: 0 }
    }

    /// The first slot of the range.
    pub fn start(&self) -> (s: u32)
        ensures
            s == self.spec_start(),
    {
        self.start
    }

    /// The slot after the last one of the range.
    pub fn end(&self) -> (e: u32)
        ensures
            e == self.spec_end(),
    {
        self.end
    }

    /// Whether the chunk holds no key.
    pub fn is_empty(&self) -> (r: bool)
        ensures
            r == self.keys().is_empty(),
    {
        self.set.is_empty()
    }

    /// How many distinct vertices the range holds.
    pub fn unique(&self) -> (count: usize)
        ensures
            count == self.keys().dom().len(),
    {
        table_len(&self.set)
    }

    /// The representatives, one per slot of the range: the buffers laid end
    /// to end.
    pub fn representatives(&self) -> (all: Vec<u32>)
        ensures
            all@ == self.slots(),
    {
        let mut all: Vec<u32> = Vec::new();
        let mut b: usize = 0;
        while b < self.vs.len()
            invariant
                b <= self.vs@.len(),
                all@ == joined(self.vs@.take(b as int)),
            decreases self.vs@.len() - b,
        {
            let ghost done = all@;
            let mut p: usize = 0;
            while p < self.vs[b].len()
                invariant
                    b < self.vs@.len(),
                    p <= self.vs@[b as int]@.len(),
                    all@ == done + self.vs@[b as int]@.take(p as int),
                decreases self.vs@[b as int]@.len() - p,
            {
                all.push(self.vs[b][p]);
                proof {
                    let buffer = self.vs@[b as int]@;
                    assert(buffer.take(p + 1) =~= buffer.take(p as int).push(buffer[p as int]));
                }
                p = p + 1;
            }
            proof {
                let buffer = self.vs@[b as int]@;
                assert(buffer.take(buffer.len() as int) =~= buffer);
                assert(self.vs@.take(b + 1).drop_last() =~= self.vs@.take(b as int));
            }
            b = b + 1;
        }
        proof {
            assert(self.vs@.take(self.vs@.len() as int) =~= self.vs@);
        }
        all
    }

    /// A chunk that covers a range holds no key exactly when the range has
    /// no slot.
    pub proof fn lemma_void<M: Keyed + ?Sized>(&self, mesh: &M)
        requires
            self.covers(mesh),
        ensures
            self.keys().is_empty() <==> self.is_void(),
    {
        if self.is_void() {
            assert forall|c: u128| !self.keys().contains_key(c) by {
                if self.keys().contains_key(c) {
                    assert(names_first(mesh, self.spec_start(), self.spec_end(), c, self.keys()[c]));
                }
            }
            assert(self.keys().dom() =~= Set::empty());
        } else {
            assert(self.keys().contains_key(content_of(mesh, self.spec_start())));
        }
    }

    /// Deduplicates the slots `start..end` of `mesh` among themselves.
    pub fn build<M: Keyed>(start: u32, end: u32, mesh: &'a M) -> (c: Self)
        requires
            mesh.fault() is None,
            start <= end <= mesh.spec_len(),
        ensures
            c.covers(mesh),
            c.spec_start() == start,
            c.spec_end() == end,
    {
        let mut set: FnvHashMap<u128, VertexKey<'a>> = FnvHashMap::default();
        let mut buffer: Vec<u32> = Vec::new();
        let mut i: u32 = start;
        while i < end
            invariant
                mesh.fault() is None,
                start <= i <= end <= mesh.spec_len(),
                deduplicated(mesh, start as int, i as int, buffer@, set@),
            decreases end - i,
        {
            let key = mesh.key(i);
            let content = key.content();
            proof {
                mesh.lemma_slot(i as int);
                assert(key.bytes() == window(mesh, i as int));
                lemma_content_bound(window(mesh, i as int));
                assert(content == content_of(mesh, i as int));
            }
            let ghost before = set@;
            match table_get(&set, content) {
                Some(seen) => {
                    proof {
                        assert(names_first(mesh, start as int, i as int, content, *seen));
                        assert(mesh.position(mesh.slot_at(seen.spec_offset()))
                            == seen.spec_offset());
                        assert(is_key_of(mesh, seen));
                    }
                    let r = mesh.index(seen);
                    proof {
                        lemma_same_content(mesh, r as int, i as int);
                    }
                    buffer.push(r);
                },
                None => {
                    table_insert(&mut set, content, key);
                    proof {
                        assert forall|j: int| start <= j < i implies #[trigger] window(mesh, j)
                            != window(mesh, i as int) by {
                            assert(before.contains_key(content_of(mesh, j)));
                        }
                        assert(names_first(mesh, start as int, i + 1, content, key));
                    }
                    buffer.push(i);
                },
            }
            i = i + 1;
        }
        let mut vs: Vec<Vec<u32>> = Vec::new();
        vs.push(buffer);
        proof {
            lemma_joined_push(Seq::empty(), buffer);
        }
        Self { set, vs, start, end }
    }

    /// Turns the chunk of all slots into the indexed mesh.
    ///
    /// The keys are numbered in the order in which the set hands them out,
    /// each is decoded into the coordinates of its vertex, and every entry
    /// gives way to the number of the key it stands for.
    pub fn compact<M: Keyed>(self, mesh: &M) -> (out: IndexedMesh)
        requires
            mesh.fault() is None,
            self.covers(mesh),
            self.spec_start() == 0,
            self.spec_end() == mesh.spec_len(),
        ensures
            out.indexes(mesh),
    {
        let n: u32 = mesh.len();
        let ghost keys = self.set@;
        let ghost slots = joined(self.vs@);
        let entries = table_entries(&self.set);
        proof {
            lemma_lists_len(entries@, keys);
        }

        // This is a memory-inefficient but fast way to control global remapping
        let size: usize = n as usize;
        let mut remap: Vec<u32> = vec![0u32; size];
        let mut coords: Vec<u32> = Vec::new();
        let mut u: usize = 0;
        while u < entries.len()
            invariant
                mesh.fault() is None,
                deduplicated(mesh, 0, n as int, slots, keys),
                lists(entries@, keys),
                entries@.len() <= n,
                u <= entries@.len(),
                remap@.len() == n,
                coords@.len() == 3 * u,
                forall|w: int|
                    0 <= w < u ==> #[trigger] point(coords@, w) == decode(
                        window(mesh, slot_of(mesh, entries@[w])),
                    ),
                forall|w: int| 0 <= w < u ==> remap@[slot_of(mesh, #[trigger] entries@[w])] == w,
            decreases entries@.len() - u,
        {
            let key = entries[u].1;
            let ghost here = slot_of(mesh, entries@[u as int]);
            let ghost old_coords = coords@;
            let ghost old_remap = remap@;
            proof {
                assert(names_first(mesh, 0, n as int, entries@[u as int].0, key));
                assert(mesh.position(here) == key.spec_offset());
                assert(is_key_of(mesh, &key));
                assert(key.bytes() == window(mesh, here));
                assert forall|w: int| 0 <= w < u implies slot_of(mesh, #[trigger] entries@[w])
                    != here by {
                    assert(names_first(mesh, 0, n as int, entries@[w].0, entries@[w].1));
                    assert(entries@[w].0 != entries@[u as int].0);
                }
            }
            let w = key.words();
            coords.push(w[0]);
            coords.push(w[1]);
            coords.push(w[2]);
            let r = mesh.index(&key);
            remap[r as usize] = u as u32;
            proof {
                assert(point(coords@, u as int) =~= w@);
                assert forall|x: int| 0 <= x < u implies #[trigger] point(coords@, x) == decode(
                    window(mesh, slot_of(mesh, entries@[x])),
                ) by {
                    assert(point(coords@, x) =~= point(old_coords, x));
                }
                assert forall|x: int| 0 <= x < u implies remap@[slot_of(
                    mesh,
                    #[trigger] entries@[x],
                )] == x by {
                    assert(names_first(mesh, 0, n as int, entries@[x].0, entries@[x].1));
                    assert(remap@[slot_of(mesh, entries@[x])] == old_remap[slot_of(
                        mesh,
                        entries@[x],
                    )]);
                }
            }
            u = u + 1;
        }

        let mut triangles: Vec<u32> = Vec::new();
        let mut b: usize = 0;
        while b < self.vs.len()
            invariant
                mesh.fault() is None,
                deduplicated(mesh, 0, n as int, slots, keys),
                lists(entries@, keys),
                slots == joined(self.vs@),
                remap@.len() == n,
                b <= self.vs@.len(),
                forall|w: int|
                    0 <= w < entries@.len() ==> remap@[slot_of(mesh, #[trigger] entries@[w])] == w,
                triangles@.len() == joined(self.vs@.take(b as int)).len(),
                triangles@.len() <= slots.len(),
                forall|i: int|
                    0 <= i < triangles@.len() ==> slots[i] < n && #[trigger] triangles@[i]
                        == remap@[slots[i] as int],
                forall|i: int|
                    0 <= i < triangles@.len() ==> #[trigger] slots[i] == joined(
                        self.vs@.take(b as int),
                    )[i],
            decreases self.vs@.len() - b,
        {
            let ghost done = joined(self.vs@.take(b as int));
            proof {
                assert(self.vs@.take(b + 1).drop_last() =~= self.vs@.take(b as int));
                assert(self.vs@.take(b + 1).last() == self.vs@[b as int]);
                assert(self.vs@ =~= self.vs@.take(b + 1) + self.vs@.skip(b + 1));
                lemma_joined_concat(self.vs@.take(b + 1), self.vs@.skip(b + 1));
            }
            let mut p: usize = 0;
            while p < self.vs[b].len()
                invariant
                    b < self.vs@.len(),
                    p <= self.vs@[b as int]@.len(),
                    remap@.len() == n,
                    slots.len() == n,
                    forall|i: int| 0 <= i < slots.len() ==> 0 <= #[trigger] slots[i] < n,
                    done.len() + self.vs@[b as int]@.len() <= slots.len(),
                    forall|q: int|
                        0 <= q < self.vs@[b as int]@.len() ==> #[trigger] slots[done.len() + q]
                            == self.vs@[b as int]@[q],
                    triangles@.len() == done.len() + p,
                    forall|i: int|
                        0 <= i < triangles@.len() ==> slots[i] < n && #[trigger] triangles@[i]
                            == remap@[slots[i] as int],
                decreases self.vs@[b as int]@.len() - p,
            {
                let v = self.vs[b][p];
                assert(v == slots[done.len() + p]);
                triangles.push(remap[v as usize]);
                p = p + 1;
            }
            b = b + 1;
        }
        let out = IndexedMesh::new(coords, triangles);
        proof {
            assert(self.vs@.take(self.vs@.len() as int) =~= self.vs@);
            let count = entries@.len() as int;
            assert(out.vertex_count() == count);
            assert forall|i: int| 0 <= i < n implies 0 <= (#[trigger] out.triangles@[i]) < count
                && point(out.vertices@, out.triangles@[i] as int) == decode(window(mesh, i)) by {
                lemma_listed(mesh, 0, n as int, slots, keys, entries@, i);
                let w = choose|w: int|
                    0 <= w < entries@.len() && slot_of(mesh, #[trigger] entries@[w]) == slots[i]
                        && entries@[w].0 == content_of(mesh, 0 + i);
                assert(is_first(mesh, 0, slots[i] as int, 0 + i));
            }
            assert forall|s: int, t: int| 0 <= s < t < count implies #[trigger] point(
                out.vertices@,
                s,
            ) != #[trigger] point(out.vertices@, t) by {
                let a = slot_of(mesh, entries@[s]);
                let b = slot_of(mesh, entries@[t]);
                assert(names_first(mesh, 0, n as int, entries@[s].0, entries@[s].1));
                assert(names_first(mesh, 0, n as int, entries@[t].0, entries@[t].1));
                assert(entries@[s].0 != entries@[t].0);
                if decode(window(mesh, a)) == decode(window(mesh, b)) {
                    assert(content_of(mesh, a) == content_of(mesh, b));
                }
            }
            assert forall|t: int| 0 <= t < count implies #[trigger] out.uses(t) by {
                let r = slot_of(mesh, entries@[t]);
                assert(names_first(mesh, 0, n as int, entries@[t].0, entries@[t].1));
                assert(is_first(mesh, 0, slots[r] as int, 0 + r));
                assert(slots[r] == r);
                assert(out.triangles@[r] == t);
            }
        }
        out
    }

    /// Folds `other`, the chunk of the slots that follow, into this one.
    ///
    /// A chunk without slots changes nothing: the result is the other chunk
    /// as it came. Otherwise the result covers both ranges, and where both
    /// chunks hold the same vertex the earlier representative stands for it.
    pub fn merge<M: Keyed>(self, other: Self, mesh: &M) -> (out: Self)
        requires
            mesh.fault() is None,
            self.covers(mesh),
            other.covers(mesh),
            self.is_void() || other.is_void() || self.spec_end() == other.spec_start(),
        ensures
            out.covers(mesh),
            self.is_void() ==> out == other,
            !self.is_void() && other.is_void() ==> out == self,
            !self.is_void() && !other.is_void() ==> out.spec_start() == self.spec_start()
                && out.spec_end() == other.spec_end(),
    {
        proof {
            self.lemma_void(mesh);
            other.lemma_void(mesh);
        }
        // Special-casing empty objects
        if self.is_empty() {
            return other;
        }
        if other.is_empty() {
            return self;
        }
        let ghost mine = self.set@;
        let ghost theirs = other.set@;
        let ghost mine_slots = joined(self.vs@);
        let ghost their_slots = joined(other.vs@);
        let Chunk { set: mut set, vs: mut vs, start, end: _ } = self;
        let Chunk { set: other_set, vs: mut other_vs, start: mid, end } = other;
        let entries = table_entries(&other_set);
        proof {
            assert(lists(entries@, theirs));
            assert(theirs.contains_key(content_of(mesh, mid as int)));
            let u = choose|u: int|
                0 <= u < entries@.len() && (#[trigger] entries@[u]).0 == content_of(
                    mesh,
                    mid as int,
                );
            assert(entries@.len() > 0);
        }

        // We build an array to quickly check whether to remap
        let mut min: u32 = u32::MAX;
        let mut max: u32 = 0;
        let mut t: usize = 0;
        while t < entries.len()
            invariant
                mesh.fault() is None,
                deduplicated(mesh, mid as int, end as int, their_slots, theirs),
                lists(entries@, theirs),
                t <= entries@.len(),
                t > 0 ==> min <= max,
                max < end,
                forall|u: int| 0 <= u < t ==> min <= slot_of(mesh, #[trigger] entries@[u]) <= max,
            decreases entries@.len() - t,
        {
            let key = entries[t].1;
            proof {
                assert(names_first(mesh, mid as int, end as int, entries@[t as int].0, key));
                assert(mesh.position(slot_of(mesh, entries@[t as int])) == key.spec_offset());
                assert(is_key_of(mesh, &key));
            }
            let i = mesh.index(&key);
            if i < min {
                min = i;
            }
            if i > max {
                max = i;
            }
            t = t + 1;
        }
        let span: usize = (max - min) as usize + 1;
        let mut remap: Vec<u32> = vec![0u32; span];

        let mut t: usize = 0;
        while t < entries.len()
            invariant
                mesh.fault() is None,
                deduplicated(mesh, start as int, mid as int, mine_slots, mine),
                deduplicated(mesh, mid as int, end as int, their_slots, theirs),
                lists(entries@, theirs),
                t <= entries@.len(),
                remap@.len() == max - min + 1,
                forall|u: int|
                    0 <= u < entries@.len() ==> min <= slot_of(mesh, #[trigger] entries@[u]) <= max,
                absorbed(mine, entries@, set@, t as int),
                aliased(mesh, mine, entries@, remap@, min as int, t as int),
            decreases entries@.len() - t,
        {
            let content = entries[t].0;
            let key = entries[t].1;
            let ghost here = slot_of(mesh, entries@[t as int]);
            let ghost old_remap = remap@;
            let ghost old_set = set@;
            proof {
                assert(names_first(mesh, mid as int, end as int, content, key));
                assert(mesh.position(here) == key.spec_offset());
                assert(is_key_of(mesh, &key));
                // Another entry stands at another slot, for its content is another.
                assert forall|u: int| 0 <= u < entries@.len() && u != t implies slot_of(
                    mesh,
                    #[trigger] entries@[u],
                ) != here by {
                    assert(names_first(mesh, mid as int, end as int, entries@[u].0, entries@[u].1));
                    if u < t {
                        assert(entries@[u].0 != entries@[t as int].0);
                    } else {
                        assert(entries@[t as int].0 != entries@[u].0);
                    }
                }
            }
            match table_get(&set, content) {
                Some(seen) => {
                    proof {
                        if !mine.contains_key(content) {
                            let u = choose|u: int|
                                0 <= u < t && (#[trigger] entries@[u]).0 == content;
                            assert(entries@[u].0 != entries@[t as int].0);
                        }
                        assert(set@[content] == mine[content]);
                        assert(names_first(mesh, start as int, mid as int, content, *seen));
                        assert(mesh.position(mesh.slot_at(seen.spec_offset()))
                            == seen.spec_offset());
                        assert(is_key_of(mesh, seen));
                    }
                    let at = mesh.index(&key);
                    let to = mesh.index(seen);
                    remap[(at - min) as usize] = to + 1;
                },
                None => {
                    table_insert(&mut set, content, key);
                },
            }
            proof {
                assert(aliased(mesh, mine, entries@, remap@, min as int, t + 1)) by {
                    assert forall|u: int| 0 <= u < entries@.len() implies remap@[slot_of(
                        mesh,
                        #[trigger] entries@[u],
                    ) - min] == (if u < t + 1 && mine.contains_key(entries@[u].0) {
                        mesh.slot_at(mine[entries@[u].0].spec_offset()) + 1
                    } else {
                        0
                    }) by {
                        if u != t {
                            assert(remap@[slot_of(mesh, entries@[u]) - min] == old_remap[slot_of(
                                mesh,
                                entries@[u],
                            ) - min]);
                        }
                    }
                }
                assert(absorbed(mine, entries@, set@, t + 1)) by {
                    assert forall|c: u128|
                        set@.contains_key(c) <==> mine.contains_key(c) || exists|u: int|
                            0 <= u < t + 1 && (#[trigger] entries@[u]).0 == c by {
                        if set@.contains_key(c) && !mine.contains_key(c) {
                            if c == content {
                                assert(entries@[t as int].0 == c);
                            } else {
                                assert(old_set.contains_key(c));
                                let u = choose|u: int|
                                    0 <= u < t && (#[trigger] entries@[u]).0 == c;
                                assert(0 <= u < t + 1 && entries@[u].0 == c);
                            }
                        }
                        if exists|u: int| 0 <= u < t + 1 && (#[trigger] entries@[u]).0 == c {
                            let u = choose|u: int|
                                0 <= u < t + 1 && (#[trigger] entries@[u]).0 == c;
                            if u < t {
                                assert(0 <= u < t && entries@[u].0 == c);
                                assert(old_set.contains_key(c));
                            }
                        }
                    }
                    assert forall|u: int|
                        0 <= u < t + 1 && !mine.contains_key(
                            (#[trigger] entries@[u]).0,
                        ) implies set@[entries@[u].0] == entries@[u].1 by {
                        if u < t {
                            assert(entries@[u].0 != entries@[t as int].0);
                            assert(old_set[entries@[u].0] == entries@[u].1);
                        }
                    }
                }
            }
            t = t + 1;
        }

        // Steal all of the other chunk's remapped vertices
        let ghost before = other_vs@;
        let ghost f = |v: u32| remapped(remap@, min as int, v);
        proof {
            // Every entry of the later chunk is the slot of one of its keys.
            assert forall|x: int, p: int|
                0 <= x < before.len() && 0 <= p < before[x]@.len() implies min <= (
            #[trigger] before[x]@[p]) <= max by {
                lemma_joined_member(before, x, p);
                let q = choose|q: int|
                    0 <= q < joined(before).len() && joined(before)[q] == before[x]@[p];
                lemma_listed(mesh, mid as int, end as int, their_slots, theirs, entries@, q);
            }
        }
        let mut b: usize = 0;
        while b < other_vs.len()
            invariant
                b <= before.len(),
                other_vs@.len() == before.len(),
                remap@.len() == max - min + 1,
                f == (|v: u32| remapped(remap@, min as int, v)),
                forall|x: int, p: int|
                    0 <= x < before.len() && 0 <= p < before[x]@.len() ==> min <= (
                    #[trigger] before[x]@[p]) <= max,
                forall|x: int|
                    0 <= x < before.len() ==> (#[trigger] other_vs@[x])@.len() == before[x]@.len(),
                forall|x: int, p: int|
                    0 <= x < b && 0 <= p < before[x]@.len() ==> #[trigger] other_vs@[x]@[p] == f(
                        before[x]@[p],
                    ),
                forall|x: int| b <= x < before.len() ==> (#[trigger] other_vs@[x])@ == before[x]@,
            decreases before.len() - b,
        {
            let mut p: usize = 0;
            while p < other_vs[b].len()
                invariant
                    b < before.len(),
                    other_vs@.len() == before.len(),
                    p <= before[b as int]@.len(),
                    remap@.len() == max - min + 1,
                    f == (|v: u32| remapped(remap@, min as int, v)),
                    forall|x: int, p: int|
                        0 <= x < before.len() && 0 <= p < before[x]@.len() ==> min <= (
                        #[trigger] before[x]@[p]) <= max,
                    forall|x: int|
                        0 <= x < before.len() ==> (#[trigger] other_vs@[x])@.len()
                            == before[x]@.len(),
                    forall|x: int, p: int|
                        0 <= x < b && 0 <= p < before[x]@.len() ==> #[trigger] other_vs@[x]@[p]
                            == f(before[x]@[p]),
                    forall|x: int| b < x < before.len() ==> (#[trigger] other_vs@[x])@ == before[x]@,
                    forall|q: int|
                        0 <= q < p ==> #[trigger] other_vs@[b as int]@[q] == f(before[b as int]@[q]),
                    forall|q: int|
                        p <= q < before[b as int]@.len() ==> #[trigger] other_vs@[b as int]@[q]
                            == before[b as int]@[q],
                decreases before[b as int]@.len() - p,
            {
                let v = other_vs[b][p];
                assert(v == before[b as int]@[p as int]);
                let w = remap[(v - min) as usize];
                if w != 0 {
                    other_vs[b][p] = w - 1;
                }
                p = p + 1;
            }
            b = b + 1;
        }
        let ghost after = other_vs@;
        let ghost kept = vs@;
        vs.append(&mut other_vs);
        let out = Self { set, vs, start, end };
        proof {
            lemma_joined_concat(kept, after);
            lemma_joined_pointwise(before, after, f);
            assert(out.slots() =~= mine_slots + joined(after));
            assert forall|q: int| 0 <= q < end - mid implies #[trigger] out.slots()[mid - start + q]
                == remapped(remap@, min as int, their_slots[q]) by {
                assert(joined(after)[q] == f(joined(before)[q]));
            }
            lemma_merged_slots(
                mesh,
                start as int,
                mid as int,
                end as int,
                mine,
                mine_slots,
                theirs,
                their_slots,
                entries@,
                remap@,
                min as int,
                out.slots(),
            );
            lemma_merged_keys(
                mesh,
                start as int,
                mid as int,
                end as int,
                mine,
                mine_slots,
                theirs,
                their_slots,
                entries@,
                out.keys(),
            );
        }
        out
    }
}

/// How many slots each chunk gets when `n` slots are dealt out to `chunks`
/// workers: `n / chunks`, rounded up. Without any worker there is one chunk.
pub open spec fn share(n: nat, chunks: nat) -> nat {
    if chunks == 0 {
        n
    } else {
        ((n + chunks - 1) / (chunks as int)) as nat
    }
}

/// The `k`-th of the ranges that slots `0..n` fall into, `per` slots each
/// but for the last: its first slot, and the slot after its last.
pub open spec fn range_at(n: nat, per: nat, k: int) -> (u32, u32) {
    ((k * per) as u32, (if k * per + per <= n { k * per + per } else { n as int }) as u32)
}

/// How many slots each chunk gets.
pub fn chunk_size(n: u32, chunks: usize) -> (per: u32)
    ensures
        per == share(n as nat, chunks as nat),
        per <= n,
        n > 0 ==> per > 0,
{
    if chunks == 0 {
        n
    } else if n == 0 {
        assert((chunks - 1) / (chunks as int) == 0) by (nonlinear_arith)
            requires
                0 < chunks,
        ;
        0
    } else if chunks as u64 >= n as u64 {
        assert((n + chunks - 1) / (chunks as int) == 1) by (nonlinear_arith)
            requires
                0 < n <= chunks,
        ;
        1
    } else {
        let c: u64 = chunks as u64;
        let per: u64 = (n as u64 + c - 1) / c;
        assert(0 < per <= n) by (nonlinear_arith)
            requires
                per == (n + c - 1) / (c as int),
                0 < c < n,
        ;
        per as u32
    }
}

/// Splits the slots `0..n` into contiguous ranges for `chunks` workers.
///
/// Every range but the last has `share(n, chunks)` slots, the last has what
/// is left, and none is empty: there are as many ranges as it takes, which
/// is never more than `chunks` (or one, without any worker).
pub fn partition(n: u32, chunks: usize) -> (ranges: Vec<(u32, u32)>)
    ensures
        forall|k: int|
            0 <= k < ranges@.len() ==> #[trigger] ranges@[k] == range_at(
                n as nat,
                share(n as nat, chunks as nat),
                k,
            ),
        forall|k: int| 0 <= k < ranges@.len() ==> (#[trigger] ranges@[k]).0 < ranges@[k].1 <= n,
        forall|k: int| 0 < k < ranges@.len() ==> (#[trigger] ranges@[k]).0 == ranges@[k - 1].1,
        n == 0 ==> ranges@.len() == 0,
        n > 0 ==> ranges@.len() > 0 && ranges@[0].0 == 0 && ranges@[ranges@.len() - 1].1 == n,
        ranges@.len() <= chunks || ranges@.len() <= 1,
{
    let per = chunk_size(n, chunks);
    let mut ranges: Vec<(u32, u32)> = Vec::new();
    let mut start: u32 = 0;
    while start < n
        invariant
            per == share(n as nat, chunks as nat),
            n > 0 ==> per > 0,
            start <= n,
            start == 0 <==> ranges@.len() == 0,
            start < n ==> start == ranges@.len() * per,
            forall|k: int|
                0 <= k < ranges@.len() ==> #[trigger] ranges@[k] == range_at(
                    n as nat,
                    per as nat,
                    k,
                ),
            forall|k: int| 0 <= k < ranges@.len() ==> (#[trigger] ranges@[k]).0 == k * per,
            forall|k: int| 0 <= k < ranges@.len() ==> (#[trigger] ranges@[k]).0 < ranges@[k].1 <= n,
            forall|k: int| 0 < k < ranges@.len() ==> (#[trigger] ranges@[k]).0 == ranges@[k - 1].1,
            ranges@.len() > 0 ==> ranges@[0].0 == 0 && ranges@[ranges@.len() - 1].1 == start,
        decreases n - start,
    {
        let end: u32 = if n - start <= per {
            n
        } else {
            start + per
        };
        proof {
            let k = ranges@.len() as int;
            assert(k * per + per == (k + 1) * per) by (nonlinear_arith);
            assert(range_at(n as nat, per as nat, k) == (start, end));
        }
        ranges.push((start, end));
        start = end;
    }
    proof {
        let last = ranges@.len() - 1;
        if last > 0 && chunks > 0 {
            assert(ranges@[last].0 == last * per);
            assert(last < chunks) by (nonlinear_arith)
                requires
                    last * per < n,
                    per == (n + chunks - 1) / (chunks as int),
                    chunks > 0,
                    last > 0,
            ;
        }
    }
    ranges
}

/// Asks `num_cpus::get` how many workers this machine has.
///
/// Trusted for nothing: the number depends on the machine, and what is done
/// with it holds for every number.
#[verifier::external_body]
fn cpu_count() -> (workers: usize) {
    num_cpus::get()
}

/// Indexes `mesh`, with the slots dealt out to `chunks` workers.
///
/// A source at fault is turned away with its fault before any slot is
/// read. Any other comes back indexed, and the number of chunks does not
/// show in the result but in how its vertices are numbered.
pub fn load_in_chunks<M: Keyed>(mesh: &M, chunks: usize) -> (r: Result<IndexedMesh, LoadError>)
    ensures
        match r {
            Ok(out) => mesh.fault() is None && out.indexes(mesh),
            Err(e) => mesh.fault() == Some(e),
        },
{
    match mesh.check() {
        Err(e) => {
            return Err(e);
        },
        Ok(_) => {},
    }
    let n = mesh.len();
    let ranges = partition(n, chunks);
    let mut out = Chunk::empty();
    let mut k: usize = 0;
    while k < ranges.len()
        invariant
            mesh.fault() is None,
            n == mesh.spec_len(),
            k <= ranges@.len(),
            forall|k: int| 0 <= k < ranges@.len() ==> (#[trigger] ranges@[k]).0 < ranges@[k].1 <= n,
            forall|k: int| 0 < k < ranges@.len() ==> (#[trigger] ranges@[k]).0 == ranges@[k - 1].1,
            ranges@.len() > 0 ==> ranges@[0].0 == 0 && ranges@[ranges@.len() - 1].1 == n,
            out.covers(mesh),
            out.spec_start() == 0,
            k == 0 ==> out.spec_end() == 0,
            k > 0 ==> out.spec_end() == ranges@[k - 1].1,
        decreases ranges@.len() - k,
    {
        let (start, end) = ranges[k];
        let next = Chunk::build(start, end, mesh);
        out = out.merge(next, mesh);
        k = k + 1;
    }
    Ok(out.compact(mesh))
}

/// Indexes `mesh`, with one chunk for each worker that the machine has.
pub fn load_from_file<M: Keyed>(mesh: M) -> (r: Result<IndexedMesh, LoadError>)
    ensures
        match r {
            Ok(out) => mesh.fault() is None && out.indexes(&mesh),
            Err(e) => mesh.fault() == Some(e),
        },
{
    let workers = cpu_count();
    load_in_chunks(&mesh, workers)
}

} // verus!
