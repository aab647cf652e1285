//! Chunks of blocks and the in-memory chunk cache of a world.
use vstd::prelude::*;
use crate::Vector3I;
use crate::single::{blocks_of, codes_at, SingleWorldFile};

verus! {

/// The kinds of block; only air is defined.
#[derive(Copy, Clone, PartialEq, Eq, Hash, Debug, Structural)]
pub enum Block {
    Air,
}

/// Number of blocks in a chunk: 16 on each axis.
pub const CHUNK_VOLUME: usize = 4096;

/// The 16-bit code of a block on disk.
pub open spec fn block_code(b: Block) -> u16 {
    match b {
        Block::Air => 0,
    }
}

/// The codes that stand for a block.
pub open spec fn is_block_code(c: u16) -> bool {
    c == 0
}

/// The block a 16-bit code stands for.
pub open spec fn block_of_code(c: u16) -> Block {
    Block::Air
}

impl Block {
    pub fn code(&self) -> (r: u16)
        ensures
            r == block_code(*self),
    {
        match self {
            Block::Air => 0,
        }
    }

    pub fn from_code(c: u16) -> (r: Block)
        ensures
            r == block_of_code(c),
    {
        Block::Air
    }
}

/// A 16×16×16 cube of blocks at chunk coordinates `(x, y, z)`.
#[derive(Debug)]
pub struct Chunk {
    pub x: i32,
    pub y: i32,
    pub z: i32,
    pub blocks: Vec<Block>,
}

/// Where block `(x, y, z)` of a chunk is stored: `(y * 16 + z) * 16 + x`.
pub open spec fn chunk_index(x: int, y: int, z: int) -> int {
    (y * 16 + z) * 16 + x
}

pub open spec fn in_chunk(x: int, y: int, z: int) -> bool {
    0 <= x < 16 && 0 <= y < 16 && 0 <= z < 16
}

impl Chunk {
    pub open spec fn wf(&self) -> bool {
        self.blocks@.len() == CHUNK_VOLUME
    }

    /// A chunk made of `block` throughout.
    pub fn new_from_block(x: i32, y: i32, z: i32, block: Block) -> (r: Chunk)
        ensures
            r.x == x && r.y == y && r.z == z,
            r.blocks@ == Seq::new(CHUNK_VOLUME as nat, |i: int| block),
    {
        let mut blocks: Vec<Block> = Vec::new();
        let mut i: usize = 0;
        while i < CHUNK_VOLUME
            invariant
                i <= CHUNK_VOLUME,
                blocks@ == Seq::new(i as nat, |j: int| block),
            decreases CHUNK_VOLUME - i,
        {
            blocks.push(block);
            i = i + 1;
            assert(blocks@ =~= Seq::new(i as nat, |j: int| block));
        }
        Chunk { x, y, z, blocks }
    }

    /// A chunk of air.
    pub fn new_empty(x: i32, y: i32, z: i32) -> (r: Chunk)
        ensures
            r.x == x && r.y == y && r.z == z,
            r.blocks@ == Seq::new(CHUNK_VOLUME as nat, |i: int| Block::Air),
    {
        Chunk::new_from_block(x, y, z, Block::Air)
    }

    /// The chunk world generation gives: air throughout.
    pub fn generate_new(x: i32, y: i32, z: i32) -> (r: Chunk)
        ensures
            r.x == x && r.y == y && r.z == z,
            r.blocks@ == Seq::new(CHUNK_VOLUME as nat, |i: int| Block::Air),
    {
        Chunk::new_empty(x, y, z)
    }

    /// The block at local coordinates `(x, y, z)`, each in `[0, 16)`.
    pub fn get(&self, x: i64, y: i64, z: i64) -> (r: Block)
        requires
            self.wf(),
            in_chunk(x as int, y as int, z as int),
        ensures
            r == self.blocks@[chunk_index(x as int, y as int, z as int)],
    {
        let i = ((y * 16 + z) * 16 + x) as usize;
        self.blocks[i]
    }

    /// Sets the block at local coordinates `(x, y, z)`, each in `[0, 16)`.
    pub fn put(&mut self, x: i64, y: i64, z: i64, block: Block)
        requires
            old(self).wf(),
            in_chunk(x as int, y as int, z as int),
        ensures
            final(self).blocks@ == old(self).blocks@.update(
                chunk_index(x as int, y as int, z as int),
                block,
            ),
            final(self).x == old(self).x && final(self).y == old(self).y && final(self).z == old(
                self,
            ).z,
    {
        let i = ((y * 16 + z) * 16 + x) as usize;
        self.blocks.set(i, block);
    }
}

/// What the cache holds for a position.
#[derive(Debug)]
pub enum ChunkLoadState {
    /// Known to the store, not in memory.
    Unloaded,
    Loaded { chunk: Chunk },
}

/// The chunk cache of a world and the store behind it.
pub struct World {
    pub chunks: Vec<(Vector3I, ChunkLoadState)>,
    pub sync: SingleWorldFile,
}

/// The state recorded last for `key` in `s`.
pub open spec fn chunk_lookup(s: Seq<(Vector3I, ChunkLoadState)>, key: Vector3I) -> Option<
    ChunkLoadState,
>
    decreases s.len(),
{
    if s.len() == 0 {
        None
    } else if s.last().0 == key {
        Some(s.last().1)
    } else {
        chunk_lookup(s.drop_last(), key)
    }
}

pub open spec fn chunk_map(s: Seq<(Vector3I, ChunkLoadState)>) -> Map<Vector3I, ChunkLoadState> {
    Map::new(|k: Vector3I| chunk_lookup(s, k) is Some, |k: Vector3I| chunk_lookup(s, k)->Some_0)
}

pub open spec fn pos_of(x: i32, y: i32, z: i32) -> Vector3I {
    Vector3I(x as i64, y as i64, z as i64)
}

pub proof fn lemma_chunk_lookup_update_at(
    s: Seq<(Vector3I, ChunkLoadState)>,
    i: int,
    k: Vector3I,
    v: ChunkLoadState,
    q: Vector3I,
)
    requires
        0 <= i < s.len(),
        s[i].0 == k,
        forall|j: int| i < j < s.len() ==> s[j].0 != k,
    ensures
        chunk_lookup(s.update(i, (k, v)), q) == (if q == k {
            Some(v)
        } else {
            chunk_lookup(s, q)
        }),
    decreases s.len(),
{
    let t = s.update(i, (k, v));
    if i < s.len() - 1 {
        assert(t.drop_last() =~= s.drop_last().update(i, (k, v)));
        assert(t.last() == s.last());
        lemma_chunk_lookup_update_at(s.drop_last(), i, k, v, q);
    } else {
        assert(t.drop_last() =~= s.drop_last());
    }
}

/// Replacing the last entry for a key changes the lookup of that key only.
pub proof fn lemma_chunk_lookup_update(
    s: Seq<(Vector3I, ChunkLoadState)>,
    i: int,
    k: Vector3I,
    v: ChunkLoadState,
)
    requires
        0 <= i < s.len(),
        s[i].0 == k,
        forall|j: int| i < j < s.len() ==> s[j].0 != k,
    ensures
        chunk_map(s.update(i, (k, v))) == chunk_map(s).insert(k, v),
{
    assert forall|q: Vector3I| #[trigger] chunk_lookup(s.update(i, (k, v)), q) == (if q == k {
        Some(v)
    } else {
        chunk_lookup(s, q)
    }) by {
        lemma_chunk_lookup_update_at(s, i, k, v, q);
    }
    assert(chunk_map(s.update(i, (k, v))) =~= chunk_map(s).insert(k, v));
}

impl World {
    pub open spec fn view(&self) -> Map<Vector3I, ChunkLoadState> {
        chunk_map(self.chunks@)
    }

    pub open spec fn wf(&self) -> bool {
        self.sync.wf()
    }

    /// Index of the last entry for `pos`.
    fn find(&self, pos: Vector3I) -> (r: Option<usize>)
        ensures
            match r {
                Some(i) => i < self.chunks@.len() && self.chunks@[i as int].0 == pos && forall|
                    j: int,
                | i < j < self.chunks@.len() ==> self.chunks@[j].0 != pos,
                None => forall|j: int| 0 <= j < self.chunks@.len() ==> self.chunks@[j].0 != pos,
            },
    {
        let mut i: usize = self.chunks.len();
        while i > 0
            invariant
                i <= self.chunks@.len(),
                forall|j: int| i <= j < self.chunks@.len() ==> self.chunks@[j].0 != pos,
            decreases i,
        {
            if self.chunks[i - 1].0 == pos {
                return Some(i - 1);
            }
            i = i - 1;
        }
        None
    }

    /// Records `state` for `pos`.
    fn set_state(&mut self, pos: Vector3I, state: ChunkLoadState)
        ensures
            final(self).view() == old(self).view().insert(pos, state),
            final(self).sync == old(self).sync,
    {
        match self.find(pos) {
            Some(i) => {
                proof {
                    lemma_chunk_lookup_update(self.chunks@, i as int, pos, state);
                }
                self.chunks.set(i, (pos, state));
            },
            None => {
                let ghost s = self.chunks@;
                self.chunks.push((pos, state));
                proof {
                    assert(self.chunks@.drop_last() =~= s);
                    assert(chunk_map(self.chunks@) =~= chunk_map(s).insert(pos, state));
                }
            },
        }
    }
}


impl World {
    /// A world over `sync`: every position the store has indexed is known,
    /// unloaded.
    pub fn new(sync: SingleWorldFile) -> (r: World)
        requires
            sync.wf(),
        ensures
            r.wf(),
            r.sync == sync,
            forall|k: Vector3I| #[trigger] r.view().contains_key(k) <==> sync.index().contains_key(k),
            forall|k: Vector3I| #[trigger] r.view().contains_key(k) ==> r.view()[k] is Unloaded,
    {
        let positions = sync.find_all();
        let mut w = World { chunks: Vec::new(), sync };
        let mut i: usize = 0;
        assert(w.view() =~= Map::<Vector3I, ChunkLoadState>::empty());
        while i < positions.len()
            invariant
                i <= positions@.len(),
                w.sync == sync,
                forall|k: Vector3I| #[trigger] w.view().contains_key(k) <==> exists|t: int|
                    0 <= t < i && #[trigger] positions@[t] == k,
                forall|k: Vector3I| #[trigger] w.view().contains_key(k) ==> w.view()[k] is Unloaded,
            decreases positions@.len() - i,
        {
            let p = positions[i];
            w.set_state(p, ChunkLoadState::Unloaded);
            proof {
                assert forall|k: Vector3I| #[trigger] w.view().contains_key(k) <==> exists|t: int|
                    0 <= t < i + 1 && #[trigger] positions@[t] == k by {
                    if k == p {
                        assert(positions@[i as int] == k);
                    }
                }
            }
            i = i + 1;
        }
        proof {
            assert forall|k: Vector3I| #[trigger] w.view().contains_key(k) <==> sync.index().contains_key(k) by {
                if w.view().contains_key(k) {
                    let t = choose|t: int| 0 <= t < positions@.len() && #[trigger] positions@[t] == k;
                    assert(positions@.contains(k));
                }
                if sync.index().contains_key(k) {
                    assert(positions@.contains(k));
                    let t = choose|t: int| 0 <= t < positions@.len() && positions@[t] == k;
                    assert(positions@[t] == k);
                }
            }
        }
        w
    }

    /// Makes the chunk at `(x, y, z)` resident: when it is absent or
    /// unloaded it is loaded from the store.
    pub fn load_chunk(&mut self, x: i32, y: i32, z: i32)
        requires
            old(self).wf(),
        ensures
            final(self).wf(),
            final(self).sync == old(self).sync,
            old(self).view().contains_key(pos_of(x, y, z)) && old(self).view()[pos_of(x, y, z)] is Loaded
                ==> final(self).view() == old(self).view(),
            !(old(self).view().contains_key(pos_of(x, y, z)) && old(self).view()[pos_of(
                x,
                y,
                z,
            )] is Loaded) ==> ({
                let c = final(self).view()[pos_of(x, y, z)]->Loaded_chunk;
                &&& final(self).view().contains_key(pos_of(x, y, z))
                &&& final(self).view()[pos_of(x, y, z)] is Loaded
                &&& final(self).view().remove(pos_of(x, y, z)) == old(self).view().remove(
                    pos_of(x, y, z),
                )
                &&& c.x == x && c.y == y && c.z == z
                &&& c.wf()
                &&& old(self).sync.index().contains_key(pos_of(x, y, z)) ==> c.blocks@ == blocks_of(
                    codes_at(old(self).sync.image@, old(self).sync.index()[pos_of(x, y, z)] as int),
                )
                &&& !old(self).sync.index().contains_key(pos_of(x, y, z)) ==> c.blocks@ == Seq::new(
                    CHUNK_VOLUME as nat,
                    |i: int| Block::Air,
                )
            }),
    {
        let pos = Vector3I(x as i64, y as i64, z as i64);
        let resident = match self.find(pos) {
            Some(i) => {
                proof {
                    lemma_chunk_lookup_last(self.chunks@, i as int, pos);
                }
                match &self.chunks[i].1 {
                    ChunkLoadState::Loaded { .. } => true,
                    ChunkLoadState::Unloaded => false,
                }
            },
            None => {
                proof {
                    lemma_chunk_lookup_absent(self.chunks@, pos);
                }
                false
            },
        };
        if !resident {
            let chunk = self.sync.load(x, y, z);
            self.set_state(pos, ChunkLoadState::Loaded { chunk });
            proof {
                assert(self.view().remove(pos) =~= old(self).view().remove(pos));
            }
        }
    }

    /// Drops the contents of the chunk at `(x, y, z)`, keeping the position
    /// known; nothing happens when the position is absent.
    pub fn unload_chunk(&mut self, x: i32, y: i32, z: i32)
        ensures
            final(self).sync == old(self).sync,
            old(self).view().contains_key(pos_of(x, y, z)) ==> final(self).view() == old(
                self,
            ).view().insert(pos_of(x, y, z), ChunkLoadState::Unloaded),
            !old(self).view().contains_key(pos_of(x, y, z)) ==> final(self).view() == old(
                self,
            ).view(),
    {
        let pos = Vector3I(x as i64, y as i64, z as i64);
        match self.find(pos) {
            Some(i) => {
                proof {
                    lemma_chunk_lookup_last(self.chunks@, i as int, pos);
                }
                self.set_state(pos, ChunkLoadState::Unloaded);
            },
            None => {
                proof {
                    lemma_chunk_lookup_absent(self.chunks@, pos);
                }
            },
        }
    }

    /// Stores `chunk` as the resident chunk at `(x, y, z)`.
    pub fn put_chunk(&mut self, x: i32, y: i32, z: i32, chunk: Chunk)
        ensures
            final(self).sync == old(self).sync,
            final(self).view() == old(self).view().insert(
                pos_of(x, y, z),
                ChunkLoadState::Loaded { chunk },
            ),
    {
        let pos = Vector3I(x as i64, y as i64, z as i64);
        self.set_state(pos, ChunkLoadState::Loaded { chunk });
    }

    /// Ensures a resident chunk at `(x, y, z)`: an absent position gets a
    /// fresh chunk of air. Returns false, changing nothing, when the position
    /// is known but unloaded.
    pub fn get_chunk(&mut self, x: i32, y: i32, z: i32) -> (r: bool)
        ensures
            final(self).sync == old(self).sync,
            r <==> !(old(self).view().contains_key(pos_of(x, y, z)) && old(self).view()[pos_of(
                x,
                y,
                z,
            )] is Unloaded),
            old(self).view().contains_key(pos_of(x, y, z)) ==> final(self).view() == old(
                self,
            ).view(),
            !old(self).view().contains_key(pos_of(x, y, z)) ==> ({
                let c = final(self).view()[pos_of(x, y, z)]->Loaded_chunk;
                &&& final(self).view().contains_key(pos_of(x, y, z))
                &&& final(self).view()[pos_of(x, y, z)] is Loaded
                &&& final(self).view().remove(pos_of(x, y, z)) == old(self).view()
                &&& c.x == x && c.y == y && c.z == z
                &&& c.blocks@ == Seq::new(CHUNK_VOLUME as nat, |i: int| Block::Air)
            }),
    {
        let pos = Vector3I(x as i64, y as i64, z as i64);
        match self.find(pos) {
            Some(i) => {
                proof {
                    lemma_chunk_lookup_last(self.chunks@, i as int, pos);
                }
                match &self.chunks[i].1 {
                    ChunkLoadState::Loaded { .. } => true,
                    ChunkLoadState::Unloaded => false,
                }
            },
            None => {
                proof {
                    lemma_chunk_lookup_absent(self.chunks@, pos);
                }
                let chunk = Chunk::new_empty(x, y, z);
                self.set_state(pos, ChunkLoadState::Loaded { chunk });
                proof {
                    assert(self.view().remove(pos) =~= old(self).view());
                }
                true
            },
        }
    }

    /// The resident chunk at `(x, y, z)`, if any.
    pub fn chunk(&self, x: i32, y: i32, z: i32) -> (r: Option<&Chunk>)
        ensures
            r is Some <==> self.view().contains_key(pos_of(x, y, z)) && self.view()[pos_of(
                x,
                y,
                z,
            )] is Loaded,
            r is Some ==> *r->Some_0 == self.view()[pos_of(x, y, z)]->Loaded_chunk,
    {
        let pos = Vector3I(x as i64, y as i64, z as i64);
        match self.find(pos) {
            Some(i) => {
                proof {
                    lemma_chunk_lookup_last(self.chunks@, i as int, pos);
                }
                match &self.chunks[i].1 {
                    ChunkLoadState::Loaded { chunk } => Some(chunk),
                    ChunkLoadState::Unloaded => None,
                }
            },
            None => {
                proof {
                    lemma_chunk_lookup_absent(self.chunks@, pos);
                }
                None
            },
        }
    }
}

/// The last entry for a key is what the lookup finds.
pub proof fn lemma_chunk_lookup_last(s: Seq<(Vector3I, ChunkLoadState)>, i: int, k: Vector3I)
    requires
        0 <= i < s.len(),
        s[i].0 == k,
        forall|j: int| i < j < s.len() ==> s[j].0 != k,
    ensures
        chunk_lookup(s, k) == Some(s[i].1),
    decreases s.len(),
{
    if i < s.len() - 1 {
        lemma_chunk_lookup_last(s.drop_last(), i, k);
    }
}

/// A key with no entry is not found.
pub proof fn lemma_chunk_lookup_absent(s: Seq<(Vector3I, ChunkLoadState)>, k: Vector3I)
    requires
        forall|j: int| 0 <= j < s.len() ==> s[j].0 != k,
    ensures
        chunk_lookup(s, k) is None,
    decreases s.len(),
{
    if s.len() > 0 {
        lemma_chunk_lookup_absent(s.drop_last(), k);
    }
}


/// Splits a world coordinate into its chunk coordinate `⌊v / 16⌋` and its
/// offset in the chunk, in `[0, 16)`.
fn split_coord(v: i64) -> (r: (i32, i64))
    requires
        -0x8_0000_0000 <= v < 0x8_0000_0000,
    ensures
        r.0 as int == v as int / 16,
        r.1 as int == v as int % 16,
{
    let u = (v + 0x8_0000_0000) as u64;
    let q = (u / 16) as i64 - 0x8000_0000;
    let l = (u % 16) as i64;
    assert(q * 16 + l == v);
    (q as i32, l)
}

pub open spec fn in_world_range(x: int, y: int, z: int) -> bool {
    &&& -0x8_0000_0000 <= x < 0x8_0000_0000
    &&& -0x8_0000_0000 <= y < 0x8_0000_0000
    &&& -0x8_0000_0000 <= z < 0x8_0000_0000
}

/// The chunk holding world block `(x, y, z)`.
pub open spec fn chunk_of(x: int, y: int, z: int) -> Vector3I {
    Vector3I((x / 16) as i64, (y / 16) as i64, (z / 16) as i64)
}

impl World {
    /// The block at world coordinates `(x, y, z)`, when its chunk is
    /// resident and complete.
    pub fn get(&self, x: i64, y: i64, z: i64) -> (r: Option<Block>)
        requires
            in_world_range(x as int, y as int, z as int),
        ensures
            ({
                let k = chunk_of(x as int, y as int, z as int);
                if self.view().contains_key(k) && self.view()[k] is Loaded
                    && self.view()[k]->Loaded_chunk.wf() {
                    r == Some(
                        self.view()[k]->Loaded_chunk.blocks@[chunk_index(
                            x as int % 16,
                            y as int % 16,
                            z as int % 16,
                        )],
                    )
                } else {
                    r is None
                }
            }),
    {
        let (cx, lx) = split_coord(x);
        let (cy, ly) = split_coord(y);
        let (cz, lz) = split_coord(z);
        match self.chunk(cx, cy, cz) {
            Some(c) => {
                if c.blocks.len() == CHUNK_VOLUME {
                    Some(c.get(lx, ly, lz))
                } else {
                    None
                }
            },
            None => None,
        }
    }

    /// Sets the block at world coordinates `(x, y, z)` when its chunk is
    /// resident and complete; returns whether it did.
    pub fn put(&mut self, x: i64, y: i64, z: i64, block: Block) -> (r: bool)
        requires
            in_world_range(x as int, y as int, z as int),
        ensures
            final(self).sync == old(self).sync,
            ({
                let k = chunk_of(x as int, y as int, z as int);
                let c = old(self).view()[k]->Loaded_chunk;
                if old(self).view().contains_key(k) && old(self).view()[k] is Loaded && c.wf() {
                    &&& r
                    &&& final(self).view().contains_key(k)
                    &&& final(self).view()[k] is Loaded
                    &&& final(self).view().remove(k) == old(self).view().remove(k)
                    &&& final(self).view()[k]->Loaded_chunk.blocks@ == c.blocks@.update(
                        chunk_index(x as int % 16, y as int % 16, z as int % 16),
                        block,
                    )
                    &&& final(self).view()[k]->Loaded_chunk.x == c.x
                    &&& final(self).view()[k]->Loaded_chunk.y == c.y
                    &&& final(self).view()[k]->Loaded_chunk.z == c.z
                } else {
                    &&& !r
                    &&& final(self).view() == old(self).view()
                }
            }),
    {
        let (cx, lx) = split_coord(x);
        let (cy, ly) = split_coord(y);
        let (cz, lz) = split_coord(z);
        let pos = Vector3I(cx as i64, cy as i64, cz as i64);
        match self.find(pos) {
            None => {
                proof {
                    lemma_chunk_lookup_absent(self.chunks@, pos);
                }
                false
            },
            Some(i) => {
                proof {
                    lemma_chunk_lookup_last(self.chunks@, i as int, pos);
                }
                let ghost s = self.chunks@;
                let (p, state) = self.chunks.remove(i);
                match state {
                    ChunkLoadState::Loaded { mut chunk } => {
                        if chunk.blocks.len() == CHUNK_VOLUME {
                            chunk.put(lx, ly, lz, block);
                            self.chunks.insert(i, (p, ChunkLoadState::Loaded { chunk }));
                            proof {
                                assert(self.chunks@ =~= s.update(i as int, (pos, ChunkLoadState::Loaded { chunk })));
                                lemma_chunk_lookup_update(s, i as int, pos, ChunkLoadState::Loaded { chunk });
                                assert(self.view().remove(pos) =~= old(self).view().remove(pos));
                            }
                            true
                        } else {
                            self.chunks.insert(i, (p, ChunkLoadState::Loaded { chunk }));
                            proof {
                                assert(self.chunks@ =~= s);
                            }
                            false
                        }
                    },
                    ChunkLoadState::Unloaded => {
                        self.chunks.insert(i, (p, ChunkLoadState::Unloaded));
                        proof {
                            assert(self.chunks@ =~= s);
                        }
                        false
                    },
                }
            },
        }
    }
}

} // verus!
