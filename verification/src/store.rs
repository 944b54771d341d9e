//! The chunked array store: a flat namespace of group paths and typed
//! arrays.  An array has a shape, a chunk shape of the same rank, a fill
//! value and open string attributes; its data lives in chunks addressed by
//! an index vector of the array's rank, one coordinate per axis.  A chunk
//! is written at most once; reading a chunk never written yields the fill
//! value over the whole chunk.

use crate::text::str_eq;
use vstd::prelude::*;

verus! {

/// A fault in a store operation.
#[derive(Clone, Copy, Debug, PartialEq, Eq, Structural)]
pub enum StoreError {
    /// The array handle does not name an array.
    NoSuchArray,
    /// No array carries the requested path.
    PathNotFound,
    /// An array already carries the requested path.
    PathTaken,
    /// Shape and chunk shape differ in rank.
    RankMismatch,
    /// A chunk extent is zero, or one chunk would exceed the supported
    /// element count.
    InvalidChunkShape,
    /// A chunk index vector has the wrong rank or reaches past the grid.
    OutOfBounds,
    /// The data handed to a chunk write does not fill one chunk.
    WrongChunkLength,
    /// The addressed chunk was already written.
    ChunkExists,
}

/// One typed array: metadata and the chunks written so far.
pub struct ChunkedArray {
    pub path: String,
    pub shape: Vec<u64>,
    pub chunk_shape: Vec<u64>,
    pub fill: u16,
    pub attrs: Vec<(String, String)>,
    pub chunks: Vec<(Vec<u64>, Vec<u16>)>,
}

/// The store: the groups created and the arrays declared.
pub struct ChunkStore {
    pub groups: Vec<String>,
    pub arrays: Vec<ChunkedArray>,
}

/// The number of elements a box of the given extents holds.
pub open spec fn volume(extents: Seq<u64>) -> int
    decreases extents.len(),
{
    if extents.len() == 0 {
        1
    } else {
        volume(extents.drop_last()) * extents.last()
    }
}

/// Whether a chunk shape is acceptable: every extent positive, and one
/// chunk no larger than the supported element count.
pub open spec fn chunk_shape_ok(cs: Seq<u64>) -> bool {
    &&& forall|i: int| 0 <= i < cs.len() ==> #[trigger] cs[i] >= 1
    &&& volume(cs) <= u32::MAX
}

/// How many chunks the array has along one axis: the extent divided by the
/// chunk extent, rounded up.
pub open spec fn grid_extent(shape: int, chunk: int) -> int {
    if shape == 0 {
        0
    } else {
        (shape - 1) / chunk + 1
    }
}

/// Whether an index vector addresses a chunk of the array: right rank, and
/// every coordinate within the chunk grid.
pub open spec fn index_in_grid(a: ChunkedArray, idx: Seq<u64>) -> bool {
    &&& idx.len() == a.shape@.len()
    &&& forall|i: int|
        0 <= i < idx.len() ==> #[trigger] idx[i] < grid_extent(
            a.shape@[i] as int,
            a.chunk_shape@[i] as int,
        )
}

/// The data of the first chunk recorded under the index vector, if any.
pub open spec fn chunk_find(chunks: Seq<(Vec<u64>, Vec<u16>)>, idx: Seq<u64>) -> Option<Seq<u16>>
    decreases chunks.len(),
{
    if chunks.len() == 0 {
        None
    } else if chunks[0].0@ == idx {
        Some(chunks[0].1@)
    } else {
        chunk_find(chunks.drop_first(), idx)
    }
}

/// The fill value repeated over one chunk of the array.
pub open spec fn fill_chunk(a: ChunkedArray) -> Seq<u16> {
    Seq::new(volume(a.chunk_shape@) as nat, |i: int| a.fill)
}

/// Well-formedness of one array: matching ranks, an acceptable chunk
/// shape, and every recorded chunk under a distinct in-grid index vector
/// with exactly one chunk of data.
pub open spec fn array_wf(a: ChunkedArray) -> bool {
    &&& a.shape@.len() == a.chunk_shape@.len()
    &&& chunk_shape_ok(a.chunk_shape@)
    &&& forall|i: int, j: int|
        0 <= i < j < a.chunks@.len() ==> (#[trigger] a.chunks@[i]).0@ != (
        #[trigger] a.chunks@[j]).0@
    &&& forall|i: int|
        0 <= i < a.chunks@.len() ==> index_in_grid(a, (#[trigger] a.chunks@[i]).0@)
    &&& forall|i: int|
        0 <= i < a.chunks@.len() ==> (#[trigger] a.chunks@[i]).1@.len() == volume(a.chunk_shape@)
}

/// Whether a group with the given path has been created.
pub open spec fn group_listed(groups: Seq<String>, p: Seq<char>) -> bool {
    exists|i: int| 0 <= i < groups.len() && (#[trigger] groups[i])@ == p
}

/// Whether an array with the given path has been declared.
pub open spec fn array_listed(arrays: Seq<ChunkedArray>, p: Seq<char>) -> bool {
    exists|i: int| 0 <= i < arrays.len() && (#[trigger] arrays[i]).path@ == p
}

/// Well-formedness of the store: every array well-formed, under a path of
/// its own.
pub open spec fn store_wf(s: ChunkStore) -> bool {
    &&& forall|i: int| 0 <= i < s.arrays@.len() ==> array_wf(#[trigger] s.arrays@[i])
    &&& forall|i: int, j: int|
        0 <= i < j < s.arrays@.len() ==> (#[trigger] s.arrays@[i]).path@ != (
        #[trigger] s.arrays@[j]).path@
}

/// A chunk just recorded is the one a later lookup of its index finds.
/// Together with the write and read contracts this is the store's
/// round-trip guarantee: writing a chunk and then reading the same index
/// vector returns the written data unchanged.
pub proof fn lemma_chunk_round_trip(chunks: Seq<(Vec<u64>, Vec<u16>)>, iv: Vec<u64>, dv: Vec<u16>)
    requires
        chunk_find(chunks, iv@) is None,
    ensures
        chunk_find(chunks.push((iv, dv)), iv@) == Some(dv@),
    decreases chunks.len(),
{
    if chunks.len() == 0 {
        assert(chunks.push((iv, dv))[0] == (iv, dv));
    } else {
        assert(chunks.push((iv, dv)).drop_first() =~= chunks.drop_first().push((iv, dv)));
        lemma_chunk_round_trip(chunks.drop_first(), iv, dv);
    }
}

/// Recording a chunk leaves every other index vector's lookup unchanged:
/// in particular an index vector never written still reads as the fill
/// value afterwards.
pub proof fn lemma_chunk_write_frame(
    chunks: Seq<(Vec<u64>, Vec<u16>)>,
    iv: Vec<u64>,
    dv: Vec<u16>,
    other: Seq<u64>,
)
    requires
        other != iv@,
    ensures
        chunk_find(chunks.push((iv, dv)), other) == chunk_find(chunks, other),
    decreases chunks.len(),
{
    if chunks.len() == 0 {
        assert(chunks.push((iv, dv))[0] == (iv, dv));
        assert(chunks.push((iv, dv)).drop_first() =~= Seq::<(Vec<u64>, Vec<u16>)>::empty());
    } else {
        assert(chunks.push((iv, dv)).drop_first() =~= chunks.drop_first().push((iv, dv)));
        lemma_chunk_write_frame(chunks.drop_first(), iv, dv, other);
    }
}

/// Whether two index vectors are equal.
fn u64_vec_eq(a: &Vec<u64>, b: &Vec<u64>) -> (r: bool)
    ensures
        r == (a@ == b@),
{
    if a.len() != b.len() {
        proof {
            assert(a@.len() != b@.len());
        }
        return false;
    }
    let mut i: usize = 0;
    while i < a.len()
        invariant
            i <= a@.len(),
            a@.len() == b@.len(),
            forall|j: int| 0 <= j < i ==> a@[j] == b@[j],
        decreases a@.len() - i,
    {
        if a[i] != b[i] {
            return false;
        }
        i = i + 1;
    }
    proof {
        assert(a@ =~= b@);
    }
    true
}

/// The position of the chunk recorded under the index vector, if any.
fn find_chunk_pos(chunks: &Vec<(Vec<u64>, Vec<u16>)>, idx: &Vec<u64>) -> (r: Option<usize>)
    ensures
        match r {
            Some(i) => i < chunks@.len() && chunks@[i as int].0@ == idx@ && chunk_find(
                chunks@,
                idx@,
            ) == Some(chunks@[i as int].1@),
            None => chunk_find(chunks@, idx@) is None,
        },
{
    proof {
        assert(chunks@.subrange(0, chunks@.len() as int) =~= chunks@);
    }
    let mut i: usize = 0;
    while i < chunks.len()
        invariant
            i <= chunks@.len(),
            forall|j: int| 0 <= j < i ==> (#[trigger] chunks@[j]).0@ != idx@,
            chunk_find(chunks@, idx@) == chunk_find(
                chunks@.subrange(i as int, chunks@.len() as int),
                idx@,
            ),
        decreases chunks@.len() - i,
    {
        let ghost rest = chunks@.subrange(i as int, chunks@.len() as int);
        if u64_vec_eq(&chunks[i].0, idx) {
            proof {
                assert(rest[0] == chunks@[i as int]);
            }
            return Some(i);
        }
        proof {
            assert(rest[0] == chunks@[i as int]);
            assert(rest.drop_first() =~= chunks@.subrange(i + 1, chunks@.len() as int));
        }
        i = i + 1;
    }
    proof {
        assert(chunks@.subrange(chunks@.len() as int, chunks@.len() as int) =~= Seq::<(
            Vec<u64>,
            Vec<u16>,
        )>::empty());
    }
    None
}

/// Checks an index vector against an array's chunk grid.
fn index_ok(arr: &ChunkedArray, idx: &Vec<u64>) -> (r: bool)
    requires
        array_wf(*arr),
    ensures
        r == index_in_grid(*arr, idx@),
{
    if idx.len() != arr.shape.len() {
        return false;
    }
    let mut k: usize = 0;
    while k < idx.len()
        invariant
            k <= idx@.len(),
            array_wf(*arr),
            idx@.len() == arr.shape@.len(),
            forall|j: int|
                0 <= j < k ==> #[trigger] idx@[j] < grid_extent(
                    arr.shape@[j] as int,
                    arr.chunk_shape@[j] as int,
                ),
        decreases idx@.len() - k,
    {
        let s = arr.shape[k];
        let c = arr.chunk_shape[k];
        proof {
            assert(arr.chunk_shape@[k as int] >= 1);
        }
        if s == 0 {
            proof {
                assert(grid_extent(arr.shape@[k as int] as int, arr.chunk_shape@[k as int] as int)
                    == 0);
                assert(!(idx@[k as int] < grid_extent(
                    arr.shape@[k as int] as int,
                    arr.chunk_shape@[k as int] as int,
                )));
                assert(!index_in_grid(*arr, idx@));
            }
            return false;
        }
        let g: u64 = (s - 1) / c + 1;
        if idx[k] >= g {
            proof {
                assert(g == grid_extent(
                    arr.shape@[k as int] as int,
                    arr.chunk_shape@[k as int] as int,
                ));
                assert(!(idx@[k as int] < grid_extent(
                    arr.shape@[k as int] as int,
                    arr.chunk_shape@[k as int] as int,
                )));
                assert(!index_in_grid(*arr, idx@));
            }
            return false;
        }
        k = k + 1;
    }
    true
}

/// One chunk's element count, computed from a well-formed chunk shape.
fn chunk_volume_exec(cs: &Vec<u64>) -> (v: usize)
    requires
        chunk_shape_ok(cs@),
    ensures
        v == volume(cs@),
        v <= u32::MAX,
{
    let mut vol: u64 = 1;
    let mut k: usize = 0;
    while k < cs.len()
        invariant
            k <= cs@.len(),
            chunk_shape_ok(cs@),
            vol == volume(cs@.subrange(0, k as int)),
            vol <= u32::MAX,
        decreases cs@.len() - k,
    {
        let c = cs[k];
        proof {
            let p = cs@.subrange(0, k + 1);
            assert(p.drop_last() =~= cs@.subrange(0, k as int));
            assert(volume(p) == vol * c);
            lemma_volume_prefix(cs@, k + 1);
            assert(cs@.subrange(0, cs@.len() as int) =~= cs@);
        }
        vol = vol * c;
        k = k + 1;
    }
    proof {
        assert(cs@.subrange(0, cs@.len() as int) =~= cs@);
    }
    vol as usize
}

impl ChunkStore {
    /// A store with no groups and no arrays.
    pub fn new() -> (s: ChunkStore)
        ensures
            s.groups@.len() == 0,
            s.arrays@.len() == 0,
            store_wf(s),
    {
        ChunkStore { groups: Vec::new(), arrays: Vec::new() }
    }

    /// Creates the group at `path` if it is not yet listed; creating an
    /// existing group changes nothing.
    pub fn ensure_group(&mut self, path: String)
        ensures
            final (self).arrays@ == old(self).arrays@,
            forall|p: Seq<char>|
                group_listed(final (self).groups@, p) <==> group_listed(old(self).groups@, p) || p
                    == path@,
    {
        let mut i: usize = 0;
        while i < self.groups.len()
            invariant
                i <= self.groups@.len(),
                *self == *old(self),
                forall|j: int| 0 <= j < i ==> (#[trigger] self.groups@[j])@ != path@,
            decreases self.groups@.len() - i,
        {
            if str_eq(self.groups[i].as_str(), path.as_str()) {
                proof {
                    assert(group_listed(self.groups@, path@));
                }
                return ;
            }
            i = i + 1;
        }
        let ghost prev = self.groups@;
        self.groups.push(path);
        proof {
            assert forall|p: Seq<char>|
                group_listed(self.groups@, p) <==> (group_listed(prev, p) || p == path@) by {
                if group_listed(self.groups@, p) {
                    let k = choose|k: int|
                        0 <= k < self.groups@.len() && (#[trigger] self.groups@[k])@ == p;
                    if k < prev.len() {
                        assert(prev[k]@ == p);
                    }
                }
                if group_listed(prev, p) {
                    let k = choose|k: int| 0 <= k < prev.len() && (#[trigger] prev[k])@ == p;
                    assert(self.groups@[k]@ == p);
                }
                if p == path@ {
                    assert(self.groups@[prev.len() as int]@ == p);
                }
            }
        }
    }

    /// Declares a new array and returns its handle.  Fails when the path
    /// is taken, the ranks differ, or the chunk shape is unacceptable.
    pub fn create_array(
        &mut self,
        path: String,
        shape: Vec<u64>,
        chunk_shape: Vec<u64>,
        fill: u16,
        attrs: Vec<(String, String)>,
    ) -> (r: Result<usize, StoreError>)
        requires
            store_wf(*old(self)),
        ensures
            store_wf(*final (self)),
            final (self).groups@ == old(self).groups@,
            match r {
                Ok(id) => {
                    &&& !array_listed(old(self).arrays@, path@)
                    &&& shape@.len() == chunk_shape@.len()
                    &&& chunk_shape_ok(chunk_shape@)
                    &&& id == old(self).arrays@.len()
                    &&& final (self).arrays@.len() == old(self).arrays@.len() + 1
                    &&& forall|j: int|
                        #![trigger final (self).arrays@[j]]
                        0 <= j < old(self).arrays@.len() ==> final (self).arrays@[j] == old(
                            self,
                        ).arrays@[j]
                    &&& final (self).arrays@[id as int].path@ == path@
                    &&& final (self).arrays@[id as int].shape@ == shape@
                    &&& final (self).arrays@[id as int].chunk_shape@ == chunk_shape@
                    &&& final (self).arrays@[id as int].fill == fill
                    &&& final (self).arrays@[id as int].attrs@ == attrs@
                    &&& final (self).arrays@[id as int].chunks@.len() == 0
                },
                Err(e) => {
                    &&& *final (self) == *old(self)
                    &&& (e == StoreError::PathTaken <==> array_listed(old(self).arrays@, path@))
                    &&& (e == StoreError::RankMismatch ==> shape@.len() != chunk_shape@.len())
                    &&& (e == StoreError::InvalidChunkShape ==> !chunk_shape_ok(chunk_shape@))
                    &&& (e == StoreError::PathTaken || e == StoreError::RankMismatch || e
                        == StoreError::InvalidChunkShape)
                },
            },
            r is Err <==> (array_listed(old(self).arrays@, path@) || shape@.len()
                != chunk_shape@.len() || !chunk_shape_ok(chunk_shape@)),
    {
        let mut i: usize = 0;
        while i < self.arrays.len()
            invariant
                i <= self.arrays@.len(),
                *self == *old(self),
                store_wf(*old(self)),
                forall|j: int| 0 <= j < i ==> (#[trigger] self.arrays@[j]).path@ != path@,
            decreases self.arrays@.len() - i,
        {
            if str_eq(self.arrays[i].path.as_str(), path.as_str()) {
                proof {
                    assert(array_listed(self.arrays@, path@));
                }
                return Err(StoreError::PathTaken);
            }
            i = i + 1;
        }
        proof {
            if array_listed(self.arrays@, path@) {
                let k = choose|k: int|
                    0 <= k < self.arrays@.len() && (#[trigger] self.arrays@[k]).path@ == path@;
            }
        }
        if shape.len() != chunk_shape.len() {
            return Err(StoreError::RankMismatch);
        }
        let mut vol: u64 = 1;
        let mut k: usize = 0;
        while k < chunk_shape.len()
            invariant
                k <= chunk_shape@.len(),
                *self == *old(self),
                store_wf(*old(self)),
                !array_listed(old(self).arrays@, path@),
                shape@.len() == chunk_shape@.len(),
                vol == volume(chunk_shape@.subrange(0, k as int)),
                1 <= vol <= u32::MAX,
                forall|j: int| 0 <= j < k ==> #[trigger] chunk_shape@[j] >= 1,
            decreases chunk_shape@.len() - k,
        {
            let c = chunk_shape[k];
            if c == 0 {
                proof {
                    assert(!chunk_shape_ok(chunk_shape@));
                }
                return Err(StoreError::InvalidChunkShape);
            }
            proof {
                assert((vol as int) * (c as int) <= (u32::MAX as int) * (u64::MAX as int))
                    by (nonlinear_arith)
                    requires
                        0 <= vol <= u32::MAX,
                        0 <= c <= u64::MAX,
                ;
            }
            let wide: u128 = (vol as u128) * (c as u128);
            proof {
                let p = chunk_shape@.subrange(0, k + 1);
                assert(p.drop_last() =~= chunk_shape@.subrange(0, k as int));
                assert(volume(p) == vol * c);
                assert(vol * c >= 1) by (nonlinear_arith)
                    requires
                        vol >= 1,
                        c >= 1,
                ;
            }
            if wide > (u32::MAX as u128) {
                proof {
                    if chunk_shape_ok(chunk_shape@) {
                        lemma_volume_prefix(chunk_shape@, k + 1);
                        assert(chunk_shape@.subrange(0, chunk_shape@.len() as int)
                            =~= chunk_shape@);
                    }
                }
                return Err(StoreError::InvalidChunkShape);
            }
            vol = wide as u64;
            k = k + 1;
        }
        proof {
            assert(chunk_shape@.subrange(0, chunk_shape@.len() as int) =~= chunk_shape@);
        }
        let ghost prev = self.arrays@;
        let arr = ChunkedArray { path, shape, chunk_shape, fill, attrs, chunks: Vec::new() };
        let id = self.arrays.len();
        self.arrays.push(arr);
        proof {
            assert forall|j: int| 0 <= j < self.arrays@.len() implies array_wf(
                #[trigger] self.arrays@[j],
            ) by {
                if j < prev.len() {
                    assert(self.arrays@[j] == prev[j]);
                    assert(array_wf(prev[j]));
                }
            }
        }
        Ok(id)
    }

    /// Resolves the handle of the array at `path`, or fails when no array
    /// carries it.
    pub fn open_array(&self, path: &str) -> (r: Result<usize, StoreError>)
        ensures
            match r {
                Ok(id) => id < self.arrays@.len() && self.arrays@[id as int].path@ == path@,
                Err(e) => e == StoreError::PathNotFound && !array_listed(self.arrays@, path@),
            },
    {
        let mut i: usize = 0;
        while i < self.arrays.len()
            invariant
                i <= self.arrays@.len(),
                forall|j: int| 0 <= j < i ==> (#[trigger] self.arrays@[j]).path@ != path@,
            decreases self.arrays@.len() - i,
        {
            if str_eq(self.arrays[i].path.as_str(), path) {
                return Ok(i);
            }
            i = i + 1;
        }
        proof {
            if array_listed(self.arrays@, path@) {
                let k = choose|k: int|
                    0 <= k < self.arrays@.len() && (#[trigger] self.arrays@[k]).path@ == path@;
            }
        }
        Err(StoreError::PathNotFound)
    }

    /// Records the data of one chunk of an array.  Fails when the handle
    /// or index vector is invalid, the data does not fill one chunk, or
    /// the chunk was already written; the store is then unchanged.
    pub fn write_chunk(&mut self, id: usize, idx: Vec<u64>, data: Vec<u16>) -> (r: Result<
        (),
        StoreError,
    >)
        requires
            store_wf(*old(self)),
        ensures
            store_wf(*final (self)),
            final (self).groups@ == old(self).groups@,
            match r {
                Ok(()) => {
                    &&& id < old(self).arrays@.len()
                    &&& index_in_grid(old(self).arrays@[id as int], idx@)
                    &&& data@.len() == volume(old(self).arrays@[id as int].chunk_shape@)
                    &&& chunk_find(old(self).arrays@[id as int].chunks@, idx@) is None
                    &&& final (self).arrays@.len() == old(self).arrays@.len()
                    &&& forall|j: int|
                        #![trigger final (self).arrays@[j]]
                        0 <= j < old(self).arrays@.len() && j != id ==> final (self).arrays@[j]
                            == old(self).arrays@[j]
                    &&& final (self).arrays@[id as int].path@ == old(
                        self,
                    ).arrays@[id as int].path@
                    &&& final (self).arrays@[id as int].shape@ == old(
                        self,
                    ).arrays@[id as int].shape@
                    &&& final (self).arrays@[id as int].chunk_shape@ == old(
                        self,
                    ).arrays@[id as int].chunk_shape@
                    &&& final (self).arrays@[id as int].fill == old(self).arrays@[id as int].fill
                    &&& final (self).arrays@[id as int].attrs@ == old(
                        self,
                    ).arrays@[id as int].attrs@
                    &&& chunk_find(final (self).arrays@[id as int].chunks@, idx@) == Some(data@)
                    &&& forall|other: Seq<u64>|
                        other != idx@ ==> chunk_find(
                            final (self).arrays@[id as int].chunks@,
                            other,
                        ) == chunk_find(old(self).arrays@[id as int].chunks@, other)
                    &&& final (self).arrays@[id as int].chunks@.len() == old(
                        self,
                    ).arrays@[id as int].chunks@.len() + 1
                },
                Err(e) => {
                    &&& *final (self) == *old(self)
                    &&& (e == StoreError::NoSuchArray <==> id >= old(self).arrays@.len())
                    &&& (id < old(self).arrays@.len() ==> (e == StoreError::OutOfBounds
                        <==> !index_in_grid(old(self).arrays@[id as int], idx@)))
                    &&& (e == StoreError::ChunkExists ==> chunk_find(
                        old(self).arrays@[id as int].chunks@,
                        idx@,
                    ) is Some)
                },
            },
            r is Err <==> (id >= old(self).arrays@.len() || !index_in_grid(
                old(self).arrays@[id as int],
                idx@,
            ) || data@.len() != volume(old(self).arrays@[id as int].chunk_shape@) || chunk_find(
                old(self).arrays@[id as int].chunks@,
                idx@,
            ) is Some),
    {
        if id >= self.arrays.len() {
            return Err(StoreError::NoSuchArray);
        }
        proof {
            assert(array_wf(self.arrays@[id as int]));
        }
        if !index_ok(&self.arrays[id], &idx) {
            return Err(StoreError::OutOfBounds);
        }
        let vol = chunk_volume_exec(&self.arrays[id].chunk_shape);
        if data.len() != vol {
            return Err(StoreError::WrongChunkLength);
        }
        if find_chunk_pos(&self.arrays[id].chunks, &idx).is_some() {
            return Err(StoreError::ChunkExists);
        }
        let ghost prev = self.arrays@;
        let ghost prev_chunks = self.arrays@[id as int].chunks@;
        let ghost iv = idx;
        let ghost dv = data;
        let mut arr = self.arrays.remove(id);
        arr.chunks.push((idx, data));
        proof {
            lemma_chunk_round_trip(prev_chunks, iv, dv);
        }
        self.arrays.insert(id, arr);
        proof {
            assert(self.arrays@ =~= prev.update(id as int, self.arrays@[id as int]));
            assert(self.arrays@[id as int].chunks@ =~= prev_chunks.push((iv, dv)));
            assert forall|other: Seq<u64>| other != iv@ implies chunk_find(
                self.arrays@[id as int].chunks@,
                other,
            ) == chunk_find(prev_chunks, other) by {
                lemma_chunk_write_frame(prev_chunks, iv, dv, other);
            }
            assert forall|j: int| 0 <= j < self.arrays@.len() implies array_wf(
                #[trigger] self.arrays@[j],
            ) by {
                if j != id {
                    assert(self.arrays@[j] == prev[j]);
                    assert(array_wf(prev[j]));
                } else {
                    let a = self.arrays@[id as int];
                    assert(array_wf(prev[id as int]));
                    assert forall|x: int, y: int|
                        0 <= x < y < a.chunks@.len() implies (#[trigger] a.chunks@[x]).0@ != (
                    #[trigger] a.chunks@[y]).0@ by {
                        if y == a.chunks@.len() - 1 {
                            assert(a.chunks@[y] == (iv, dv));
                            assert(a.chunks@[x] == prev_chunks[x]);
                            if a.chunks@[x].0@ == iv@ {
                                lemma_chunk_found(prev_chunks, x);
                            }
                        } else {
                            assert(a.chunks@[x] == prev_chunks[x]);
                            assert(a.chunks@[y] == prev_chunks[y]);
                        }
                    }
                    assert forall|x: int|
                        0 <= x < a.chunks@.len() implies index_in_grid(
                        a,
                        (#[trigger] a.chunks@[x]).0@,
                    ) && (#[trigger] a.chunks@[x]).1@.len() == volume(a.chunk_shape@) by {
                        if x < a.chunks@.len() - 1 {
                            assert(a.chunks@[x] == prev_chunks[x]);
                            assert(index_in_grid(prev[id as int], prev_chunks[x].0@));
                        } else {
                            assert(a.chunks@[x] == (iv, dv));
                        }
                    }
                }
            }
        }
        Ok(())
    }

    /// Reads one chunk of an array: the recorded data, or the fill value
    /// over the whole chunk when the index vector was never written.
    /// Fails only when the handle or index vector is invalid.
    pub fn read_chunk(&self, id: usize, idx: &Vec<u64>) -> (r: Result<Vec<u16>, StoreError>)
        requires
            store_wf(*self),
        ensures
            match r {
                Ok(d) => {
                    &&& id < self.arrays@.len()
                    &&& index_in_grid(self.arrays@[id as int], idx@)
                    &&& d@ == match chunk_find(self.arrays@[id as int].chunks@, idx@) {
                        Some(data) => data,
                        None => fill_chunk(self.arrays@[id as int]),
                    }
                },
                Err(e) => {
                    &&& (e == StoreError::NoSuchArray <==> id >= self.arrays@.len())
                    &&& (id < self.arrays@.len() ==> (e == StoreError::OutOfBounds
                        <==> !index_in_grid(self.arrays@[id as int], idx@)))
                },
            },
            r is Err <==> (id >= self.arrays@.len() || !index_in_grid(
                self.arrays@[id as int],
                idx@,
            )),
    {
        if id >= self.arrays.len() {
            return Err(StoreError::NoSuchArray);
        }
        proof {
            assert(array_wf(self.arrays@[id as int]));
        }
        if !index_ok(&self.arrays[id], idx) {
            return Err(StoreError::OutOfBounds);
        }
        match find_chunk_pos(&self.arrays[id].chunks, idx) {
            Some(i) => {
                let stored = &self.arrays[id].chunks[i].1;
                let mut out: Vec<u16> = Vec::new();
                let mut j: usize = 0;
                while j < stored.len()
                    invariant
                        j <= stored@.len(),
                        out@ == stored@.subrange(0, j as int),
                    decreases stored@.len() - j,
                {
                    let v = stored[j];
                    out.push(v);
                    proof {
                        assert(out@ =~= stored@.subrange(0, j + 1));
                    }
                    j = j + 1;
                }
                proof {
                    assert(stored@.subrange(0, stored@.len() as int) =~= stored@);
                }
                Ok(out)
            },
            None => {
                let vol = chunk_volume_exec(&self.arrays[id].chunk_shape);
                let fill = self.arrays[id].fill;
                let mut out: Vec<u16> = Vec::new();
                let mut j: usize = 0;
                while j < vol
                    invariant
                        j <= vol,
                        out@.len() == j,
                        forall|x: int| 0 <= x < j ==> out@[x] == fill,
                        fill == self.arrays@[id as int].fill,
                        vol == volume(self.arrays@[id as int].chunk_shape@),
                    decreases vol - j,
                {
                    out.push(fill);
                    j = j + 1;
                }
                proof {
                    assert(out@ =~= fill_chunk(self.arrays@[id as int]));
                }
                Ok(out)
            },
        }
    }
}

/// The chunk recorded at position `x` is found by a lookup of its index.
proof fn lemma_chunk_found(chunks: Seq<(Vec<u64>, Vec<u16>)>, x: int)
    requires
        0 <= x < chunks.len(),
    ensures
        chunk_find(chunks, chunks[x].0@) is Some,
    decreases chunks.len(),
{
    if x > 0 && chunks[0].0@ != chunks[x].0@ {
        assert(chunks.drop_first()[x - 1] == chunks[x]);
        lemma_chunk_found(chunks.drop_first(), x - 1);
    }
}

/// With every extent at least one, a box holds at least one element.
proof fn lemma_volume_pos(cs: Seq<u64>)
    requires
        forall|i: int| 0 <= i < cs.len() ==> #[trigger] cs[i] >= 1,
    ensures
        volume(cs) >= 1,
    decreases cs.len(),
{
    if cs.len() > 0 {
        assert forall|i: int| 0 <= i < cs.drop_last().len() implies #[trigger] cs.drop_last()[i]
            >= 1 by {
            assert(cs.drop_last()[i] == cs[i]);
        }
        lemma_volume_pos(cs.drop_last());
        assert(volume(cs.drop_last()) * cs.last() >= 1) by (nonlinear_arith)
            requires
                volume(cs.drop_last()) >= 1,
                cs.last() >= 1,
        ;
    }
}

/// With every extent at least one, extending a box cannot shrink its
/// volume.
proof fn lemma_volume_prefix(cs: Seq<u64>, k: int)
    requires
        forall|i: int| 0 <= i < cs.len() ==> #[trigger] cs[i] >= 1,
        0 <= k <= cs.len(),
    ensures
        volume(cs.subrange(0, k)) <= volume(cs),
        volume(cs.subrange(0, k)) >= 1,
    decreases cs.len() - k,
{
    assert forall|i: int| 0 <= i < cs.subrange(0, k).len() implies #[trigger] cs.subrange(0, k)[i]
        >= 1 by {
        assert(cs.subrange(0, k)[i] == cs[i]);
    }
    lemma_volume_pos(cs.subrange(0, k));
    if k < cs.len() {
        let p = cs.subrange(0, k + 1);
        assert(p.drop_last() =~= cs.subrange(0, k));
        lemma_volume_prefix(cs, k + 1);
        assert(volume(p) == volume(cs.subrange(0, k)) * cs[k]);
        assert(volume(cs.subrange(0, k)) * cs[k] >= volume(cs.subrange(0, k))) by (nonlinear_arith)
            requires
                volume(cs.subrange(0, k)) >= 1,
                cs[k] >= 1,
        ;
    } else {
        assert(cs.subrange(0, k) =~= cs);
    }
}

} // verus!
