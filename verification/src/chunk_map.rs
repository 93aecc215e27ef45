use vstd::prelude::*;

verus! {

use crate::chunk::Chunk;
use crate::coord::Coord;

/// Sparse chunk storage, keyed by chunk coordinate. The table itself is
/// hashbrown's hash map; Verus sees it only through the `chunk_map` model
/// and the trusted operations below. Each of those relies on hashbrown's
/// documented map behaviour together with the derived structural equality
/// and hash of `Coord<i64>`.
#[verifier::external_body]
pub struct ChunkMap {
    map: hashbrown::HashMap<Coord<i64>, Chunk>,
}

/// The entries the map holds, as a mathematical map from chunk coordinate
/// to chunk.
pub uninterp spec fn chunk_map(m: ChunkMap) -> Map<Coord<i64>, Chunk>;

impl ChunkMap {
    /// Relies on hashbrown::HashMap::new: a fresh map holds no entries.
    #[verifier::external_body]
    pub fn new() -> (r: ChunkMap)
        ensures
            chunk_map(r) =~= Map::empty(),
    {
        ChunkMap { map: hashbrown::HashMap::new() }
    }

    /// Relies on hashbrown::HashMap::insert: afterwards the map holds `v`
    /// at `k` and every other entry is unchanged.
    #[verifier::external_body]
    pub fn insert(&mut self, k: Coord<i64>, v: Chunk)
        ensures
            chunk_map(*final(self)) == chunk_map(*old(self)).insert(k, v),
    {
        self.map.insert(k, v);
    }

    /// Relies on hashbrown::HashMap::get: the entry stored at `k`, or None
    /// when there is none.
    #[verifier::external_body]
    pub fn get(&self, k: Coord<i64>) -> (r: Option<&Chunk>)
        ensures
            match r {
                Some(c) => chunk_map(*self).dom().contains(k) && *c == chunk_map(*self)[k],
                None => !chunk_map(*self).dom().contains(k),
            },
    {
        self.map.get(&k)
    }

    /// Relies on hashbrown::HashMap::contains_key.
    #[verifier::external_body]
    pub fn contains_key(&self, k: Coord<i64>) -> (r: bool)
        ensures
            r == chunk_map(*self).dom().contains(k),
    {
        self.map.contains_key(&k)
    }

    /// Relies on hashbrown::HashMap::len: the number of entries.
    #[verifier::external_body]
    pub fn len(&self) -> (r: usize)
        requires
            chunk_map(*self).dom().finite(),
        ensures
            r == chunk_map(*self).dom().len(),
    {
        self.map.len()
    }
}

} // verus!
