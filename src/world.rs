//! The world: resident chunks keyed by chunk coordinate, and block access by
//! world coordinate routed through the coordinate transform.
use vstd::prelude::*;

use crate::block::{air, Block};
use crate::chunk::Chunk;
use crate::coord::{
    lemma_decomposition_unique, lemma_offset_in_chunk_bounds, Coordinate, CHUNK_VOLUME,
};

verus! {

/// Every chunk of the map holds all of its slots.
pub open spec fn chunks_wf(chunks: Map<Coordinate, Seq<Block>>) -> bool {
    forall|c: Coordinate| #[trigger] chunks.contains_key(c) ==> chunks[c].len() == CHUNK_VOLUME
}

/// The chunk that contains `pos` is in the map.
pub open spec fn resident(chunks: Map<Coordinate, Seq<Block>>, pos: Coordinate) -> bool {
    chunks.contains_key(pos.chunk_coord())
}

/// The block at world position `pos`.
pub open spec fn block_in(chunks: Map<Coordinate, Seq<Block>>, pos: Coordinate) -> Block {
    chunks[pos.chunk_coord()][pos.offset_in_chunk()]
}

/// The chunks after the block at `pos` is replaced by `b`.
pub open spec fn with_block(chunks: Map<Coordinate, Seq<Block>>, pos: Coordinate, b: Block) -> Map<
    Coordinate,
    Seq<Block>,
> {
    chunks.insert(pos.chunk_coord(), chunks[pos.chunk_coord()].update(pos.offset_in_chunk(), b))
}

/// Reading a position right after writing `b` there gives `b`.
pub proof fn lemma_set_then_get(chunks: Map<Coordinate, Seq<Block>>, pos: Coordinate, b: Block)
    requires
        chunks_wf(chunks),
        resident(chunks, pos),
    ensures
        resident(with_block(chunks, pos, b), pos),
        block_in(with_block(chunks, pos, b), pos) == b,
{
    lemma_offset_in_chunk_bounds(pos);
}

/// Reading a position right after clearing it gives air.
pub proof fn lemma_remove_then_get(chunks: Map<Coordinate, Seq<Block>>, pos: Coordinate)
    requires
        chunks_wf(chunks),
        resident(chunks, pos),
    ensures
        block_in(with_block(chunks, pos, air()), pos) == air(),
{
    lemma_set_then_get(chunks, pos, air());
}

/// Writing at one position leaves every other position as it was, in the same
/// chunk or in another, and makes no chunk resident or absent.
pub proof fn lemma_set_isolation(
    chunks: Map<Coordinate, Seq<Block>>,
    a: Coordinate,
    other: Coordinate,
    b: Block,
)
    requires
        chunks_wf(chunks),
        resident(chunks, a),
        a != other,
    ensures
        resident(with_block(chunks, a, b), other) == resident(chunks, other),
        resident(chunks, other) ==> block_in(with_block(chunks, a, b), other) == block_in(
            chunks,
            other,
        ),
{
    if a.chunk_coord() == other.chunk_coord() && a.offset_in_chunk() == other.offset_in_chunk() {
        lemma_decomposition_unique(a, other);
    }
}

/// No two slots hold the same chunk coordinate.
pub open spec fn keys_distinct(s: Seq<(Coordinate, Chunk)>) -> bool {
    forall|i: int, j: int|
        0 <= i < s.len() && 0 <= j < s.len() && i != j ==> #[trigger] s[i].0 != #[trigger] s[j].0
}

/// Some slot holds the chunk coordinate `c`.
pub open spec fn has_key(s: Seq<(Coordinate, Chunk)>, c: Coordinate) -> bool {
    exists|i: int| 0 <= i < s.len() && #[trigger] s[i].0 == c
}

/// The chunks that a sequence of slots holds, by chunk coordinate.
pub open spec fn slots_view(s: Seq<(Coordinate, Chunk)>) -> Map<Coordinate, Seq<Block>> {
    Map::new(
        |c: Coordinate| has_key(s, c),
        |c: Coordinate| s[choose|i: int| 0 <= i < s.len() && #[trigger] s[i].0 == c].1@,
    )
}

proof fn lemma_slot(s: Seq<(Coordinate, Chunk)>, i: int)
    requires
        keys_distinct(s),
        0 <= i < s.len(),
    ensures
        slots_view(s).contains_key(s[i].0),
        slots_view(s)[s[i].0] == s[i].1@,
{
    let c = s[i].0;
    assert(has_key(s, c));
    let j = choose|j: int| 0 <= j < s.len() && #[trigger] s[j].0 == c;
    assert(j == i);
}

proof fn lemma_update_slot(s: Seq<(Coordinate, Chunk)>, i: int, ch: Chunk)
    requires
        keys_distinct(s),
        0 <= i < s.len(),
    ensures
        keys_distinct(s.update(i, (s[i].0, ch))),
        slots_view(s.update(i, (s[i].0, ch))) == slots_view(s).insert(s[i].0, ch@),
{
    let t = s.update(i, (s[i].0, ch));
    assert(keys_distinct(t)) by {
        assert forall|a: int, b: int|
            0 <= a < t.len() && 0 <= b < t.len() && a != b implies #[trigger] t[a].0
            != #[trigger] t[b].0 by {
            assert(t[a].0 == s[a].0 && t[b].0 == s[b].0);
        }
    }
    let m = slots_view(s).insert(s[i].0, ch@);
    assert forall|c: Coordinate| #[trigger] has_key(t, c) == m.contains_key(c) by {
        if has_key(t, c) {
            let j = choose|j: int| 0 <= j < t.len() && #[trigger] t[j].0 == c;
            assert(s[j].0 == c);
        }
        if has_key(s, c) {
            let j = choose|j: int| 0 <= j < s.len() && #[trigger] s[j].0 == c;
            assert(t[j].0 == c);
        }
    }
    assert forall|c: Coordinate| #[trigger] m.contains_key(c) implies slots_view(t)[c] == m[c] by {
        assert(has_key(t, c));
        let j = choose|j: int| 0 <= j < t.len() && #[trigger] t[j].0 == c;
        lemma_slot(t, j);
        if c != s[i].0 {
            lemma_slot(s, j);
        }
    }
    assert(slots_view(t) =~= m);
}

proof fn lemma_push_slot(s: Seq<(Coordinate, Chunk)>, c0: Coordinate, ch: Chunk)
    requires
        keys_distinct(s),
        !has_key(s, c0),
    ensures
        keys_distinct(s.push((c0, ch))),
        slots_view(s.push((c0, ch))) == slots_view(s).insert(c0, ch@),
{
    let t = s.push((c0, ch));
    assert(keys_distinct(t)) by {
        assert forall|a: int, b: int|
            0 <= a < t.len() && 0 <= b < t.len() && a != b implies #[trigger] t[a].0
            != #[trigger] t[b].0 by {
            if a < s.len() && b < s.len() {
                assert(t[a].0 == s[a].0 && t[b].0 == s[b].0);
            } else if a < s.len() {
                assert(t[a].0 == s[a].0);
            } else {
                assert(t[b].0 == s[b].0);
            }
        }
    }
    let m = slots_view(s).insert(c0, ch@);
    assert forall|c: Coordinate| #[trigger] has_key(t, c) == m.contains_key(c) by {
        if has_key(t, c) && c != c0 {
            let j = choose|j: int| 0 <= j < t.len() && #[trigger] t[j].0 == c;
            assert(s[j].0 == c);
        }
        if has_key(s, c) {
            let j = choose|j: int| 0 <= j < s.len() && #[trigger] s[j].0 == c;
            assert(t[j].0 == c);
        }
        if c == c0 {
            assert(t[s.len() as int].0 == c);
        }
    }
    assert forall|c: Coordinate| #[trigger] m.contains_key(c) implies slots_view(t)[c] == m[c] by {
        if c == c0 {
            lemma_slot(t, s.len() as int);
        } else {
            assert(has_key(s, c));
            let j = choose|j: int| 0 <= j < s.len() && #[trigger] s[j].0 == c;
            lemma_slot(s, j);
            lemma_slot(t, j);
        }
    }
    assert(slots_view(t) =~= m);
}

proof fn lemma_remove_slot(s: Seq<(Coordinate, Chunk)>, i: int)
    requires
        keys_distinct(s),
        0 <= i < s.len(),
    ensures
        keys_distinct(s.remove(i)),
        slots_view(s.remove(i)) == slots_view(s).remove(s[i].0),
{
    let t = s.remove(i);
    assert(keys_distinct(t)) by {
        assert forall|a: int, b: int|
            0 <= a < t.len() && 0 <= b < t.len() && a != b implies #[trigger] t[a].0
            != #[trigger] t[b].0 by {
            let a2 = if a < i { a } else { a + 1 };
            let b2 = if b < i { b } else { b + 1 };
            assert(t[a].0 == s[a2].0 && t[b].0 == s[b2].0);
        }
    }
    let m = slots_view(s).remove(s[i].0);
    assert forall|c: Coordinate| #[trigger] has_key(t, c) == m.contains_key(c) by {
        if has_key(t, c) {
            let j = choose|j: int| 0 <= j < t.len() && #[trigger] t[j].0 == c;
            let j2 = if j < i { j } else { j + 1 };
            assert(s[j2].0 == c);
        }
        if has_key(s, c) && c != s[i].0 {
            let j = choose|j: int| 0 <= j < s.len() && #[trigger] s[j].0 == c;
            let j2 = if j < i { j } else { j - 1 };
            assert(t[j2].0 == c);
        }
    }
    assert forall|c: Coordinate| #[trigger] m.contains_key(c) implies slots_view(t)[c] == m[c] by {
        assert(has_key(t, c));
        let j = choose|j: int| 0 <= j < t.len() && #[trigger] t[j].0 == c;
        let j2 = if j < i { j } else { j + 1 };
        lemma_slot(t, j);
        lemma_slot(s, j2);
    }
    assert(slots_view(t) =~= m);
}

/// The resident chunks, each under the coordinate of the chunk. Chunks are
/// put in and taken out by whoever loads them; block access by world
/// coordinate asks that the chunk concerned be resident.
pub struct World {
    chunks: Vec<(Coordinate, Chunk)>,
}

impl View for World {
    type V = Map<Coordinate, Seq<Block>>;

    closed spec fn view(&self) -> Map<Coordinate, Seq<Block>> {
        slots_view(self.chunks@)
    }
}

impl World {
    /// No chunk coordinate is held twice and every chunk is whole.
    pub closed spec fn slots_wf(&self) -> bool {
        &&& keys_distinct(self.chunks@)
        &&& forall|i: int| 0 <= i < self.chunks@.len() ==> (#[trigger] self.chunks@[i]).1.wf()
    }

    pub open spec fn wf(&self) -> bool {
        &&& self.slots_wf()
        &&& chunks_wf(self@)
    }

    proof fn lemma_wf(&self)
        requires
            self.slots_wf(),
        ensures
            chunks_wf(self@),
    {
        assert forall|c: Coordinate| #[trigger] self@.contains_key(c) implies self@[c].len()
            == CHUNK_VOLUME by {
            let s = self.chunks@;
            assert(has_key(s, c));
            let j = choose|j: int| 0 <= j < s.len() && #[trigger] s[j].0 == c;
            lemma_slot(s, j);
            assert(s[j].1.wf());
        }
    }

    /// A world with no resident chunk.
    pub fn new() -> (r: World)
        ensures
            r.wf(),
            r@ == Map::<Coordinate, Seq<Block>>::empty(),
    {
        let r = World { chunks: Vec::new() };
        proof {
            assert(r@ =~= Map::<Coordinate, Seq<Block>>::empty());
        }
        r
    }

    /// Slot that holds the chunk coordinate `key`, if any.
    fn find_slot(&self, key: &Coordinate) -> (r: Option<usize>)
        ensures
            match r {
                Some(i) => i < self.chunks@.len() && self.chunks@[i as int].0 == *key,
                None => !has_key(self.chunks@, *key),
            },
    {
        let mut i: usize = 0;
        while i < self.chunks.len()
            invariant
                i <= self.chunks@.len(),
                forall|j: int| 0 <= j < i ==> (#[trigger] self.chunks@[j]).0 != *key,
            decreases self.chunks@.len() - i,
        {
            if self.chunks[i].0 == *key {
                return Some(i);
            }
            i = i + 1;
        }
        None
    }

    /// Slot of a chunk coordinate that is known to be resident.
    fn slot_of(&self, key: &Coordinate) -> (r: usize)
        requires
            self.wf(),
            self@.contains_key(*key),
        ensures
            r < self.chunks@.len(),
            self.chunks@[r as int].0 == *key,
            self.chunks@[r as int].1@ == self@[*key],
    {
        match self.find_slot(key) {
            Some(i) => {
                proof {
                    lemma_slot(self.chunks@, i as int);
                }
                i
            },
            None => {
                proof {
                    assert(has_key(self.chunks@, *key));
                }
                0
            },
        }
    }

    /// Whether the chunk that contains `pos` is resident.
    pub fn has_chunk_containing(&self, pos: &Coordinate) -> (r: bool)
        ensures
            r == resident(self@, *pos),
    {
        let key = pos.get_chunk_coordinate();
        self.find_slot(&key).is_some()
    }

    /// Puts `chunk` in the world under `key`, handing back the chunk that was
    /// there before, if any.
    pub fn insert_chunk(&mut self, key: Coordinate, chunk: Chunk) -> (r: Option<Chunk>)
        requires
            old(self).wf(),
            chunk.wf(),
        ensures
            final(self).wf(),
            final(self)@ == old(self)@.insert(key, chunk@),
            match r {
                Some(c) => old(self)@.contains_key(key) && c@ == old(self)@[key],
                None => !old(self)@.contains_key(key),
            },
    {
        match self.find_slot(&key) {
            Some(i) => {
                proof {
                    lemma_slot(self.chunks@, i as int);
                    lemma_update_slot(self.chunks@, i as int, chunk);
                }
                let mut previous = chunk;
                let slot = &mut self.chunks[i];
                std::mem::swap(&mut slot.1, &mut previous);
                proof {
                    self.lemma_wf();
                }
                Some(previous)
            },
            None => {
                proof {
                    lemma_push_slot(self.chunks@, key, chunk);
                }
                self.chunks.push((key, chunk));
                proof {
                    self.lemma_wf();
                }
                None
            },
        }
    }

    /// Takes the chunk under `key` out of the world, if it is resident.
    pub fn remove_chunk(&mut self, key: &Coordinate) -> (r: Option<Chunk>)
        requires
            old(self).wf(),
        ensures
            final(self).wf(),
            final(self)@ == old(self)@.remove(*key),
            match r {
                Some(c) => old(self)@.contains_key(*key) && c@ == old(self)@[*key] && c.wf(),
                None => !old(self)@.contains_key(*key),
            },
    {
        match self.find_slot(key) {
            Some(i) => {
                proof {
                    lemma_slot(self.chunks@, i as int);
                    lemma_remove_slot(self.chunks@, i as int);
                }
                let (_, chunk) = self.chunks.remove(i);
                proof {
                    self.lemma_wf();
                }
                Some(chunk)
            },
            None => {
                proof {
                    assert(self@ =~= self@.remove(*key));
                }
                None
            },
        }
    }

    /// The chunk that contains `pos`, which must be resident.
    pub fn get_chunk_containing(&self, pos: &Coordinate) -> (r: &Chunk)
        requires
            self.wf(),
            resident(self@, *pos),
        ensures
            r@ == self@[pos.chunk_coord()],
            r.wf(),
    {
        let key = pos.get_chunk_coordinate();
        let i = self.slot_of(&key);
        &self.chunks[i].1
    }

    /// Exclusive access to the chunk that contains `pos`, which must be
    /// resident; what is done to it is what the world holds afterwards.
    pub fn get_mut_chunk_containing(&mut self, pos: &Coordinate) -> (r: &mut Chunk)
        requires
            old(self).wf(),
            resident(old(self)@, *pos),
        ensures
            r@ == old(self)@[pos.chunk_coord()],
            r.wf(),
            final(self)@ == old(self)@.insert(pos.chunk_coord(), final(r)@),
            final(r).wf() ==> final(self).wf(),
    {
        let key = pos.get_chunk_coordinate();
        let i = self.slot_of(&key);
        let ghost s = self.chunks@;
        proof {
            lemma_slot(s, i as int);
        }
        let slot = &mut self.chunks[i];
        let r = &mut slot.1;
        proof {
            lemma_update_slot(s, i as int, *final(r));
        }
        r
    }

    /// The block at `pos`, whose chunk must be resident.
    pub fn get_block(&self, pos: &Coordinate) -> (r: &Block)
        requires
            self.wf(),
            resident(self@, *pos),
        ensures
            *r == block_in(self@, *pos),
    {
        self.get_chunk_containing(pos).get_block(&pos.get_chunk_index())
    }

    /// Exclusive access to the block at `pos`, whose chunk must be resident;
    /// what is written through it is the block at `pos` afterwards.
    pub fn get_borrow_mut_block(&mut self, pos: &Coordinate) -> (r: &mut Block)
        requires
            old(self).wf(),
            resident(old(self)@, *pos),
        ensures
            *r == block_in(old(self)@, *pos),
            final(self)@ == with_block(old(self)@, *pos, *final(r)),
            final(self).wf(),
    {
        let index = pos.get_chunk_index();
        self.get_mut_chunk_containing(pos).get_mut_block(&index)
    }

    /// Puts `block` at `pos`, whose chunk must be resident.
    pub fn set_block(&mut self, pos: &Coordinate, block: Block)
        requires
            old(self).wf(),
            resident(old(self)@, *pos),
        ensures
            final(self).wf(),
            final(self)@ == with_block(old(self)@, *pos, block),
    {
        self.get_mut_chunk_containing(pos).set_block(&pos.get_chunk_index(), block)
    }

    /// Clears `pos` back to air; its chunk must be resident.
    pub fn remove_block(&mut self, pos: &Coordinate)
        requires
            old(self).wf(),
            resident(old(self)@, *pos),
        ensures
            final(self).wf(),
            final(self)@ == with_block(old(self)@, *pos, air()),
    {
        self.get_mut_chunk_containing(pos).remove_block(&pos.get_chunk_index())
    }
}

} // verus!
