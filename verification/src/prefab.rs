//! Prebuilt components: palette voxels, fixed-size chunks, a sparse
//! chunked world and a copy-on-write overlay over it.

use vstd::prelude::*;

use crate::indices::{ChunkIndex, WorldIndex, CHUNK_EDGE};
use crate::shape::Shape;
use crate::space::{Padded, Space};

verus! {

/// The voxel that maps to a palette entry; id 0 is the empty voxel.
#[derive(Clone, Copy, PartialEq, Eq, Structural, Debug)]
pub struct PaletteVoxel(pub u8);

impl PaletteVoxel {
    /// The empty voxel.
    pub fn empty() -> (r: Self)
        ensures
            r == PaletteVoxel(0),
    {
        PaletteVoxel(0)
    }
}

impl Padded for PaletteVoxel {
    open spec fn padding_spec() -> Self {
        PaletteVoxel(0)
    }

    fn padding() -> (r: Self)
        ensures
            r == Self::padding_spec(),
    {
        PaletteVoxel(0)
    }
}

/// The shape of one chunk.
pub open spec fn chunk_shape() -> Shape {
    Shape { x: CHUNK_EDGE as usize, y: CHUNK_EDGE as usize, z: CHUNK_EDGE as usize }
}

/// The shape of one chunk, as a runtime value.
pub fn chunk_shape_rt() -> (r: Shape)
    ensures
        r == chunk_shape(),
        r.wf(),
{
    Shape::new(CHUNK_EDGE as usize, CHUNK_EDGE as usize, CHUNK_EDGE as usize)
}

/// A dense cube of `CHUNK_EDGE^3` palette voxels, addressed by local
/// coordinates.
pub struct PaletteIdChunk {
    pub data: Vec<PaletteVoxel>,
}

impl Clone for PaletteIdChunk {
    fn clone(&self) -> (r: Self)
        ensures
            r.data@ == self.data@,
    {
        let mut data: Vec<PaletteVoxel> = Vec::new();
        let mut n: usize = 0;
        while n < self.data.len()
            invariant
                data@.len() == n,
                n <= self.data@.len(),
                forall|k: int| 0 <= k < n ==> data@[k] == self.data@[k],
            decreases self.data@.len() - n,
        {
            data.push(self.data[n]);
            n = n + 1;
        }
        proof {
            assert(data@ =~= self.data@);
        }
        PaletteIdChunk { data }
    }
}

impl PaletteIdChunk {
    /// The buffer holds exactly one voxel per chunk cell.
    pub open spec fn inv(self) -> bool {
        self.data@.len() == chunk_shape().size_spec()
    }

    /// Buffer position of a local coordinate.
    pub open spec fn cell_of(i: WorldIndex) -> int {
        chunk_shape().linearize_spec(i.0 as int, i.1 as int, i.2 as int)
    }

    /// Whether a local coordinate lies inside the chunk.
    pub open spec fn local_in_range(i: WorldIndex) -> bool {
        0 <= i.0 < CHUNK_EDGE && 0 <= i.1 < CHUNK_EDGE && 0 <= i.2 < CHUNK_EDGE
    }

    /// The voxel at a local coordinate.
    pub open spec fn spec_get(self, i: WorldIndex) -> PaletteVoxel {
        self.data@[Self::cell_of(i)]
    }

    /// A chunk of empty voxels.
    pub fn empty() -> (r: Self)
        ensures
            r.inv(),
            forall|n: int| 0 <= n < r.data@.len() ==> r.data@[n] == PaletteVoxel(0),
    {
        let size = chunk_shape_rt().size();
        let mut data: Vec<PaletteVoxel> = Vec::new();
        let mut n: usize = 0;
        while n < size
            invariant
                data@.len() == n,
                n <= size,
                forall|k: int| 0 <= k < n ==> data@[k] == PaletteVoxel(0),
            decreases size - n,
        {
            data.push(PaletteVoxel(0));
            n = n + 1;
        }
        PaletteIdChunk { data }
    }

    /// Reads the voxel at a local coordinate.
    pub fn get(&self, offset: WorldIndex) -> (r: PaletteVoxel)
        requires
            self.inv(),
            Self::local_in_range(offset),
        ensures
            r == self.spec_get(offset),
    {
        proof {
            chunk_shape().lemma_linearize_in_range(
                offset.0 as int,
                offset.1 as int,
                offset.2 as int,
            );
        }
        let p = chunk_shape_rt().linearize([
            offset.0 as usize,
            offset.1 as usize,
            offset.2 as usize,
        ]);
        self.data[p]
    }

    /// Writes the voxel at a local coordinate.
    pub fn set(&mut self, offset: WorldIndex, value: PaletteVoxel)
        requires
            old(self).inv(),
            Self::local_in_range(offset),
        ensures
            final(self).inv(),
            final(self).data@ == old(self).data@.update(Self::cell_of(offset), value),
            final(self).spec_get(offset) == value,
            forall|j: WorldIndex|
                Self::local_in_range(j) && j != offset ==> final(self).spec_get(j) == old(
                    self,
                ).spec_get(j),
    {
        proof {
            chunk_shape().lemma_linearize_in_range(
                offset.0 as int,
                offset.1 as int,
                offset.2 as int,
            );
        }
        let p = chunk_shape_rt().linearize([
            offset.0 as usize,
            offset.1 as usize,
            offset.2 as usize,
        ]);
        self.data[p] = value;
        proof {
            assert forall|j: WorldIndex|
                Self::local_in_range(j) && j != offset implies final(self).spec_get(j) == old(
                self,
            ).spec_get(j) by {
                chunk_shape().lemma_linearize_in_range(j.0 as int, j.1 as int, j.2 as int);
                if Self::cell_of(j) == Self::cell_of(offset) {
                    chunk_shape().lemma_delinearize_of_linearize(
                        j.0 as int,
                        j.1 as int,
                        j.2 as int,
                    );
                    chunk_shape().lemma_delinearize_of_linearize(
                        offset.0 as int,
                        offset.1 as int,
                        offset.2 as int,
                    );
                }
            }
        }
    }
}

/// Unique chunk keys in an association list.
pub open spec fn keys_unique(s: Seq<(ChunkIndex, PaletteIdChunk)>) -> bool {
    forall|k: int, l: int| 0 <= k < l < s.len() ==> (#[trigger] s[k].0) != (#[trigger] s[l].0)
}

/// Every chunk in an association list is well-formed.
pub open spec fn chunks_inv(s: Seq<(ChunkIndex, PaletteIdChunk)>) -> bool {
    forall|k: int| 0 <= k < s.len() ==> (#[trigger] s[k].1).inv()
}

/// The chunk stored under `ci`, if any.
pub open spec fn spec_chunk_at(
    s: Seq<(ChunkIndex, PaletteIdChunk)>,
    ci: ChunkIndex,
) -> Option<PaletteIdChunk> {
    if exists|k: int| 0 <= k < s.len() && (#[trigger] s[k].0) == ci {
        let k = choose|k: int| 0 <= k < s.len() && (#[trigger] s[k].0) == ci;
        Some(s[k].1)
    } else {
        None
    }
}

/// The stored chunk's contents under `ci`, or an all-empty chunk.
pub open spec fn chunk_data_at(
    s: Seq<(ChunkIndex, PaletteIdChunk)>,
    ci: ChunkIndex,
) -> Seq<PaletteVoxel> {
    match spec_chunk_at(s, ci) {
        Some(ch) => ch.data@,
        None => Seq::new(chunk_shape().size_spec() as nat, |n: int| PaletteVoxel(0)),
    }
}

/// Under unique keys, any entry with the key holds the stored chunk.
pub proof fn lemma_chunk_at_entry(s: Seq<(ChunkIndex, PaletteIdChunk)>, ci: ChunkIndex, k: int)
    requires
        keys_unique(s),
        0 <= k < s.len(),
        s[k].0 == ci,
    ensures
        spec_chunk_at(s, ci) == Some(s[k].1),
{
    let k2 = choose|k2: int| 0 <= k2 < s.len() && (#[trigger] s[k2].0) == ci;
    if k2 != k {
        if k < k2 {
            assert(s[k].0 != s[k2].0);
        } else {
            assert(s[k2].0 != s[k].0);
        }
    }
}

/// Finds the entry stored under `ci`.
fn find_chunk(s: &Vec<(ChunkIndex, PaletteIdChunk)>, ci: ChunkIndex) -> (r: Option<usize>)
    ensures
        match r {
            Some(k) => 0 <= k < s@.len() && s@[k as int].0 == ci,
            None => forall|k: int| 0 <= k < s@.len() ==> (#[trigger] s@[k].0) != ci,
        },
{
    let mut k: usize = 0;
    while k < s.len()
        invariant
            k <= s@.len(),
            forall|l: int| 0 <= l < k ==> (#[trigger] s@[l].0) != ci,
        decreases s@.len() - k,
    {
        let entry = &s[k];
        if entry.0.0.0 == ci.0.0 && entry.0.0.1 == ci.0.1 && entry.0.0.2 == ci.0.2 {
            return Some(k);
        }
        k = k + 1;
    }
    None
}

/// Finds the entry stored under `ci` (shared helper).
pub fn find_chunk_pub(s: &Vec<(ChunkIndex, PaletteIdChunk)>, ci: ChunkIndex) -> (r: Option<
    usize,
>)
    ensures
        match r {
            Some(k) => 0 <= k < s@.len() && s@[k as int].0 == ci,
            None => forall|k: int| 0 <= k < s@.len() ==> (#[trigger] s@[k].0) != ci,
        },
{
    find_chunk(s, ci)
}

/// Replacing the entry at `k` keeps keys unique and updates only its
/// own key's association.
pub proof fn lemma_upsert_update(
    pre: Seq<(ChunkIndex, PaletteIdChunk)>,
    post: Seq<(ChunkIndex, PaletteIdChunk)>,
    ci: ChunkIndex,
    chunk: PaletteIdChunk,
    k: int,
)
    requires
        keys_unique(pre),
        chunks_inv(pre),
        chunk.inv(),
        0 <= k < pre.len(),
        pre[k].0 == ci,
        post == pre.update(k, (ci, chunk)),
    ensures
        keys_unique(post),
        chunks_inv(post),
        spec_chunk_at(post, ci) == Some(chunk),
        forall|c2: ChunkIndex| c2 != ci ==> spec_chunk_at(post, c2) == spec_chunk_at(pre, c2),
{
    assert(keys_unique(post)) by {
        assert forall|a: int, b: int| 0 <= a < b < post.len() implies (#[trigger] post[a].0)
            != (#[trigger] post[b].0) by {
            assert(pre[a].0 != pre[b].0);
        }
    }
    lemma_chunk_at_entry(post, ci, k);
    assert forall|c2: ChunkIndex| c2 != ci implies spec_chunk_at(post, c2) == spec_chunk_at(
        pre,
        c2,
    ) by {
        if exists|l: int| 0 <= l < pre.len() && (#[trigger] pre[l].0) == c2 {
            let l = choose|l: int| 0 <= l < pre.len() && (#[trigger] pre[l].0) == c2;
            lemma_chunk_at_entry(pre, c2, l);
            assert(post[l].0 == c2);
            lemma_chunk_at_entry(post, c2, l);
        } else {
            if exists|l: int| 0 <= l < post.len() && (#[trigger] post[l].0) == c2 {
                let l = choose|l: int| 0 <= l < post.len() && (#[trigger] post[l].0) == c2;
                assert(pre[l].0 == c2);
            }
        }
    }
}

/// Appending a fresh key keeps keys unique and updates only its own
/// key's association.
pub proof fn lemma_upsert_push(
    pre: Seq<(ChunkIndex, PaletteIdChunk)>,
    post: Seq<(ChunkIndex, PaletteIdChunk)>,
    ci: ChunkIndex,
    chunk: PaletteIdChunk,
)
    requires
        keys_unique(pre),
        chunks_inv(pre),
        chunk.inv(),
        forall|l: int| 0 <= l < pre.len() ==> (#[trigger] pre[l].0) != ci,
        post == pre.push((ci, chunk)),
    ensures
        keys_unique(post),
        chunks_inv(post),
        spec_chunk_at(post, ci) == Some(chunk),
        forall|c2: ChunkIndex| c2 != ci ==> spec_chunk_at(post, c2) == spec_chunk_at(pre, c2),
{
    assert(keys_unique(post)) by {
        assert forall|a: int, b: int| 0 <= a < b < post.len() implies (#[trigger] post[a].0)
            != (#[trigger] post[b].0) by {
            if b < pre.len() {
                assert(pre[a].0 != pre[b].0);
            } else {
                assert(post[b].0 == ci);
                assert(pre[a].0 != ci);
            }
        }
    }
    lemma_chunk_at_entry(post, ci, pre.len() as int);
    assert forall|c2: ChunkIndex| c2 != ci implies spec_chunk_at(post, c2) == spec_chunk_at(
        pre,
        c2,
    ) by {
        if exists|l: int| 0 <= l < pre.len() && (#[trigger] pre[l].0) == c2 {
            let l = choose|l: int| 0 <= l < pre.len() && (#[trigger] pre[l].0) == c2;
            lemma_chunk_at_entry(pre, c2, l);
            assert(post[l].0 == c2);
            lemma_chunk_at_entry(post, c2, l);
        } else {
            if exists|l: int| 0 <= l < post.len() && (#[trigger] post[l].0) == c2 {
                let l = choose|l: int| 0 <= l < post.len() && (#[trigger] post[l].0) == c2;
                if l < pre.len() {
                    assert(pre[l].0 == c2);
                } else {
                    assert(post[l].0 == ci);
                }
            }
        }
    }
}

/// A sparse world: a map from chunk indices to chunks.  Reads outside
/// any stored chunk give the empty voxel.  It is not directly mutable;
/// use the copy-on-write overlay.
pub struct World {
    pub chunks: Vec<(ChunkIndex, PaletteIdChunk)>,
}

impl World {
    /// Chunk keys are unique and every chunk is well-formed.
    pub open spec fn inv(self) -> bool {
        keys_unique(self.chunks@) && chunks_inv(self.chunks@)
    }

    /// The value a read at `i` returns: the cell of the enclosing
    /// chunk, or the empty voxel when that chunk is absent.
    pub open spec fn spec_get(self, i: WorldIndex) -> PaletteVoxel {
        let e = ChunkIndex::enclosing_spec(i);
        let ci = ChunkIndex(WorldIndex(e.0 as i32, e.1 as i32, e.2 as i32));
        match spec_chunk_at(self.chunks@, ci) {
            Some(ch) => ch.spec_get(
                WorldIndex((i.0 - e.0) as i32, (i.1 - e.1) as i32, (i.2 - e.2) as i32),
            ),
            None => PaletteVoxel(0),
        }
    }

    /// An empty world.
    pub fn new() -> (r: Self)
        ensures
            r.inv(),
            r.chunks@.len() == 0,
    {
        World { chunks: Vec::new() }
    }

    /// The chunk stored under `offset`, or an empty chunk.
    pub fn get_chunk(&self, offset: ChunkIndex) -> (r: PaletteIdChunk)
        requires
            self.inv(),
        ensures
            r.inv(),
            match spec_chunk_at(self.chunks@, offset) {
                Some(ch) => r.data@ == ch.data@,
                None => forall|n: int| 0 <= n < r.data@.len() ==> r.data@[n] == PaletteVoxel(0),
            },
    {
        match find_chunk(&self.chunks, offset) {
            Some(k) => {
                proof {
                    lemma_chunk_at_entry(self.chunks@, offset, k as int);
                    assert(self.chunks@[k as int].1.inv());
                }
                self.chunks[k].1.clone()
            },
            None => PaletteIdChunk::empty(),
        }
    }

    /// The indices of all stored chunks, in storage order.
    pub fn iter_chunk_indices(&self) -> (r: Vec<ChunkIndex>)
        ensures
            r@.len() == self.chunks@.len(),
            forall|k: int| 0 <= k < r@.len() ==> r@[k] == self.chunks@[k].0,
    {
        let mut out: Vec<ChunkIndex> = Vec::new();
        let mut k: usize = 0;
        while k < self.chunks.len()
            invariant
                out@.len() == k,
                k <= self.chunks@.len(),
                forall|l: int| 0 <= l < k ==> out@[l] == self.chunks@[l].0,
            decreases self.chunks@.len() - k,
        {
            out.push(self.chunks[k].0);
            k = k + 1;
        }
        out
    }

    /// Stores a chunk under `offset`, replacing any previous one.
    pub fn insert_chunk(&mut self, offset: ChunkIndex, chunk: PaletteIdChunk)
        requires
            old(self).inv(),
            chunk.inv(),
        ensures
            final(self).inv(),
            spec_chunk_at(final(self).chunks@, offset) == Some(chunk),
            forall|ci: ChunkIndex|
                ci != offset ==> spec_chunk_at(final(self).chunks@, ci) == spec_chunk_at(
                    old(self).chunks@,
                    ci,
                ),
    {
        let ghost pre = self.chunks@;
        match find_chunk(&self.chunks, offset) {
            Some(k) => {
                self.chunks[k] = (offset, chunk);
                proof {
                    assert(self.chunks@ == pre.update(k as int, (offset, chunk)));
                    assert(keys_unique(self.chunks@)) by {
                        assert forall|a: int, b: int|
                            0 <= a < b < self.chunks@.len() implies (#[trigger] self.chunks@[a].0)
                            != (#[trigger] self.chunks@[b].0) by {
                            assert(pre[a].0 != pre[b].0);
                        }
                    }
                    lemma_chunk_at_entry(self.chunks@, offset, k as int);
                    assert forall|ci: ChunkIndex| ci != offset implies spec_chunk_at(
                        self.chunks@,
                        ci,
                    ) == spec_chunk_at(pre, ci) by {
                        if exists|l: int| 0 <= l < pre.len() && (#[trigger] pre[l].0) == ci {
                            let l = choose|l: int|
                                0 <= l < pre.len() && (#[trigger] pre[l].0) == ci;
                            lemma_chunk_at_entry(pre, ci, l);
                            assert(self.chunks@[l].0 == ci);
                            lemma_chunk_at_entry(self.chunks@, ci, l);
                        } else {
                            if exists|l: int|
                                0 <= l < self.chunks@.len() && (#[trigger] self.chunks@[l].0)
                                    == ci {
                                let l = choose|l: int|
                                    0 <= l < self.chunks@.len() && (
                                    #[trigger] self.chunks@[l].0) == ci;
                                assert(pre[l].0 == ci);
                            }
                        }
                    }
                }
            },
            None => {
                self.chunks.push((offset, chunk));
                proof {
                    assert(self.chunks@ == pre.push((offset, chunk)));
                    assert(keys_unique(self.chunks@)) by {
                        assert forall|a: int, b: int|
                            0 <= a < b < self.chunks@.len() implies (#[trigger] self.chunks@[a].0)
                            != (#[trigger] self.chunks@[b].0) by {
                            if b < pre.len() {
                                assert(pre[a].0 != pre[b].0);
                            } else {
                                assert(self.chunks@[b].0 == offset);
                                assert(pre[a].0 != offset);
                            }
                        }
                    }
                    lemma_chunk_at_entry(self.chunks@, offset, pre.len() as int);
                    assert forall|ci: ChunkIndex| ci != offset implies spec_chunk_at(
                        self.chunks@,
                        ci,
                    ) == spec_chunk_at(pre, ci) by {
                        if exists|l: int| 0 <= l < pre.len() && (#[trigger] pre[l].0) == ci {
                            let l = choose|l: int|
                                0 <= l < pre.len() && (#[trigger] pre[l].0) == ci;
                            lemma_chunk_at_entry(pre, ci, l);
                            assert(self.chunks@[l].0 == ci);
                            lemma_chunk_at_entry(self.chunks@, ci, l);
                        } else {
                            if exists|l: int|
                                0 <= l < self.chunks@.len() && (#[trigger] self.chunks@[l].0)
                                    == ci {
                                let l = choose|l: int|
                                    0 <= l < self.chunks@.len() && (
                                    #[trigger] self.chunks@[l].0) == ci;
                                if l < pre.len() {
                                    assert(pre[l].0 == ci);
                                } else {
                                    assert(self.chunks@[l].0 == offset);
                                }
                            }
                        }
                    }
                }
            },
        }
    }
}

impl Default for World {
    /// An empty world.
    fn default() -> (r: Self)
        ensures
            r.inv(),
            r.chunks@.len() == 0,
    {
        World { chunks: Vec::new() }
    }
}

/// Coordinates at which chunk arithmetic stays in range.
pub open spec fn chunkable(i: WorldIndex) -> bool {
    &&& i.0 > i32::MIN + CHUNK_EDGE
    &&& i.1 > i32::MIN + CHUNK_EDGE
    &&& i.2 > i32::MIN + CHUNK_EDGE
}

impl Space for World {
    type Voxel = PaletteVoxel;

    open spec fn inv(&self) -> bool {
        World::inv(*self)
    }

    open spec fn in_domain(&self, i: WorldIndex) -> bool {
        chunkable(i)
    }

    open spec fn can_yield(&self, i: WorldIndex, v: PaletteVoxel) -> bool {
        v == self.spec_get(i)
    }

    fn get(&self, i: WorldIndex) -> (r: PaletteVoxel) {
        let ci = ChunkIndex::new_encompassing(i);
        let internal = ci.get_internal_offset(i);
        let chunk = self.get_chunk(ci);
        let local = WorldIndex(internal.0, internal.1, internal.2);
        let v = chunk.get(local);
        proof {
            let e = ChunkIndex::enclosing_spec(i);
            if spec_chunk_at(self.chunks@, ci) is Some {
            } else {
                assert(v == PaletteVoxel(0)) by {
                    chunk_shape().lemma_linearize_in_range(
                        local.0 as int,
                        local.1 as int,
                        local.2 as int,
                    );
                }
            }
        }
        v
    }
}

} // verus!
