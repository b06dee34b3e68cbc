use vstd::prelude::*;
use crate::color::{Rgb, Residual, sq_dist, residual_of, distance_squared, residual};
use crate::error::MosaicError;
use crate::raster::{Image, triangle_fill, key_of, average_color, resize_to_fill};

verus! {

/// A tile: a representative color key and the raster that is placed.
pub struct Tile {
    pub key: Rgb,
    pub image: Image,
}

/// The mathematical content of a tile.
pub struct TileModel {
    pub key: Rgb,
    pub width: u32,
    pub height: u32,
    pub data: Seq<u8>,
}

impl Tile {
    pub open spec fn view(&self) -> TileModel {
        TileModel {
            key: self.key,
            width: self.image.width,
            height: self.image.height,
            data: self.image.data@,
        }
    }
}

/// Tiles keyed by color, at most one per key, in the order in which each key
/// first arrived. That order settles ties in nearest-key search.
pub struct TileLibrary {
    pub entries: Vec<Tile>,
}

/// Library contents after inserting `t`: an entry with the same key is
/// replaced in place, otherwise `t` is appended.
pub open spec fn library_insert(m: Seq<TileModel>, t: TileModel) -> Seq<TileModel> {
    if exists|i: int| 0 <= i < m.len() && m[i].key == t.key {
        m.update(choose|i: int| 0 <= i < m.len() && m[i].key == t.key, t)
    } else {
        m.push(t)
    }
}

/// Whether an image has pixels, so that it can be reduced to a key.
pub open spec fn usable(img: Image) -> bool {
    img.width > 0 && img.height > 0
}

/// The tile made of an image: its key and its resize to `ts` x `ts`.
pub open spec fn tile_of(img: Image, ts: u32) -> TileModel {
    TileModel {
        key: key_of(img.width, img.height, img.data@),
        width: ts,
        height: ts,
        data: triangle_fill(img.width, img.height, img.data@, ts, ts),
    }
}

/// The library made of `images`, taken in order; empty images are skipped.
pub open spec fn built(images: Seq<Image>, ts: u32) -> Seq<TileModel>
    decreases images.len(),
{
    if images.len() == 0 {
        Seq::empty()
    } else {
        let prev = built(images.drop_last(), ts);
        if usable(images.last()) {
            library_insert(prev, tile_of(images.last(), ts))
        } else {
            prev
        }
    }
}

/// Keys are pairwise distinct.
pub open spec fn keys_unique(m: Seq<TileModel>) -> bool {
    forall|i: int, j: int| 0 <= i < m.len() && 0 <= j < m.len() && i != j ==> m[i].key != m[j].key
}

/// Index of the key nearest to `q` among the first `n` entries; the first
/// of equally near keys wins.
pub open spec fn nearest_in(m: Seq<TileModel>, q: Rgb, n: int) -> int
    decreases n,
{
    if n <= 1 {
        0
    } else {
        let j = nearest_in(m, q, n - 1);
        if sq_dist(q, m[n - 1].key) < sq_dist(q, m[j].key) {
            n - 1
        } else {
            j
        }
    }
}

/// Index of the key nearest to `q` in the whole library.
pub open spec fn nearest_index(m: Seq<TileModel>, q: Rgb) -> int {
    nearest_in(m, q, m.len() as int)
}

/// The nearest-key search returns a key of the library that no other key
/// beats: every key is at least as far from the query, and every key before
/// it is strictly farther.
pub proof fn lemma_nearest_is_argmin(m: Seq<TileModel>, q: Rgb)
    requires
        m.len() > 0,
    ensures
        0 <= nearest_index(m, q) < m.len(),
        forall|j: int|
            0 <= j < m.len() ==> sq_dist(q, m[nearest_index(m, q)].key) <= sq_dist(q, #[trigger] m[j].key),
        forall|j: int|
            0 <= j < nearest_index(m, q) ==> sq_dist(q, m[nearest_index(m, q)].key) < sq_dist(q, #[trigger] m[j].key),
{
    lemma_nearest_in(m, q, m.len() as int);
}

proof fn lemma_nearest_in(m: Seq<TileModel>, q: Rgb, n: int)
    requires
        0 < n <= m.len(),
    ensures
        0 <= nearest_in(m, q, n) < n,
        forall|j: int| 0 <= j < n ==> sq_dist(q, m[nearest_in(m, q, n)].key) <= sq_dist(q, #[trigger] m[j].key),
        forall|j: int| 0 <= j < nearest_in(m, q, n) ==> sq_dist(q, m[nearest_in(m, q, n)].key) < sq_dist(q, #[trigger] m[j].key),
    decreases n,
{
    if n > 1 {
        lemma_nearest_in(m, q, n - 1);
    }
}

proof fn lemma_insert(m: Seq<TileModel>, t: TileModel)
    requires
        keys_unique(m),
    ensures
        keys_unique(library_insert(m, t)),
        library_insert(m, t).len() >= m.len(),
        exists|i: int| 0 <= i < library_insert(m, t).len() && library_insert(m, t)[i] == t,
        forall|i: int|
            0 <= i < library_insert(m, t).len() && (#[trigger] library_insert(m, t)[i]).key == t.key
                ==> library_insert(m, t)[i] == t,
        forall|i: int| 0 <= i < m.len() && (#[trigger] m[i]).key != t.key ==> library_insert(m, t)[i] == m[i],
{
    let r = library_insert(m, t);
    if exists|i: int| 0 <= i < m.len() && m[i].key == t.key {
        let c = choose|i: int| 0 <= i < m.len() && m[i].key == t.key;
        assert(r[c] == t);
    } else {
        assert(r[m.len() as int] == t);
    }
}

/// The library keeps all keys distinct, whatever images it is built from.
pub proof fn lemma_built_keys_unique(images: Seq<Image>, ts: u32)
    ensures
        keys_unique(built(images, ts)),
    decreases images.len(),
{
    if images.len() > 0 {
        lemma_built_keys_unique(images.drop_last(), ts);
        if usable(images.last()) {
            lemma_insert(built(images.drop_last(), ts), tile_of(images.last(), ts));
        }
    }
}

/// When several images reduce to the same key, the library holds exactly
/// one tile under that key: the one made of the last such image.
pub proof fn lemma_last_image_wins(images: Seq<Image>, ts: u32, j: int)
    requires
        0 <= j < images.len(),
        usable(images[j]),
        forall|l: int|
            j < l < images.len() && usable(#[trigger] images[l])
                ==> tile_of(images[l], ts).key != tile_of(images[j], ts).key,
    ensures
        keys_unique(built(images, ts)),
        exists|i: int| 0 <= i < built(images, ts).len() && built(images, ts)[i] == tile_of(images[j], ts),
        forall|i: int|
            0 <= i < built(images, ts).len() && (#[trigger] built(images, ts)[i]).key == tile_of(images[j], ts).key
                ==> built(images, ts)[i] == tile_of(images[j], ts),
    decreases images.len(),
{
    lemma_built_keys_unique(images, ts);
    let prev = images.drop_last();
    lemma_built_keys_unique(prev, ts);
    let t = tile_of(images[j], ts);
    if j == images.len() - 1 {
        lemma_insert(built(prev, ts), t);
    } else {
        assert forall|l: int| j < l < prev.len() && usable(#[trigger] prev[l])
            implies tile_of(prev[l], ts).key != t.key by {
            assert(prev[l] == images[l]);
        }
        lemma_last_image_wins(prev, ts, j);
        assert(prev[j] == images[j]);
        if usable(images.last()) {
            let u = tile_of(images.last(), ts);
            assert(images.last() == images[images.len() - 1]);
            lemma_insert(built(prev, ts), u);
            let b = built(prev, ts);
            let i = choose|i: int| 0 <= i < b.len() && b[i] == t;
            assert(built(images, ts)[i] == t);
        }
    }
}

impl TileLibrary {
    pub open spec fn model(&self) -> Seq<TileModel> {
        Seq::new(self.entries@.len(), |i: int| self.entries@[i].view())
    }

    pub open spec fn wf(&self) -> bool {
        &&& keys_unique(self.model())
        &&& forall|i: int| 0 <= i < self.entries@.len() ==> (#[trigger] self.entries@[i]).image.wf()
    }

    /// An empty library.
    pub fn new() -> (lib: TileLibrary)
        ensures
            lib.wf(),
            lib.model() == Seq::<TileModel>::empty(),
    {
        TileLibrary { entries: Vec::new() }
    }

    /// Number of distinct keys.
    pub fn len(&self) -> (n: usize)
        ensures
            n == self.model().len(),
    {
        self.entries.len()
    }

    /// Whether the library holds no tile.
    pub fn is_empty(&self) -> (b: bool)
        ensures
            b == (self.model().len() == 0),
    {
        self.entries.len() == 0
    }

    /// Stores `image` under `key`, replacing a tile with the same key.
    pub fn insert(&mut self, key: Rgb, image: Image)
        requires
            old(self).wf(),
            image.wf(),
        ensures
            final(self).wf(),
            final(self).model() == library_insert(
                old(self).model(),
                (TileModel { key, width: image.width, height: image.height, data: image.data@ }),
            ),
    {
        let ghost t = TileModel { key, width: image.width, height: image.height, data: image.data@ };
        let ghost m0 = self.model();
        let n: usize = self.entries.len();
        let mut i: usize = 0;
        while i < n
            invariant
                n == self.entries@.len(),
                self.model() == m0,
                m0 == old(self).model(),
                self.wf(),
                image.wf(),
                t == (TileModel { key, width: image.width, height: image.height, data: image.data@ }),
                i <= n,
                forall|j: int| 0 <= j < i ==> m0[j].key != key,
            decreases n - i,
        {
            assert(m0[i as int].key == self.entries@[i as int].key);
            let k: Rgb = self.entries[i].key;
            if k.r == key.r && k.g == key.g && k.b == key.b {
                proof {
                    assert(m0[i as int].key == t.key);
                    let c = choose|j: int| 0 <= j < m0.len() && m0[j].key == t.key;
                    assert(c == i);
                }
                self.entries.set(i, Tile { key, image });
                assert(self.model() =~= library_insert(m0, t));
                assert(self.model() =~= m0.update(i as int, t));
                return;
            }
            i = i + 1;
        }
        self.entries.push(Tile { key, image });
        assert(self.model() =~= library_insert(m0, t));
    }

    /// Builds a library from decoded images given in path order: each
    /// non-empty image is reduced to its average color key and resized to
    /// `tile_size` x `tile_size`; a later image replaces an earlier one with
    /// the same key.
    pub fn build(images: &Vec<Image>, tile_size: u32) -> (lib: TileLibrary)
        requires
            tile_size > 0,
            tile_size * tile_size * 4 <= usize::MAX,
            forall|i: int| 0 <= i < images@.len() ==> (#[trigger] images@[i]).wf(),
        ensures
            lib.wf(),
            lib.model() == built(images@, tile_size),
    {
        let mut lib = TileLibrary::new();
        let mut i: usize = 0;
        while i < images.len()
            invariant
                i <= images@.len(),
                lib.wf(),
                tile_size > 0,
                tile_size * tile_size * 4 <= usize::MAX,
                lib.model() == built(images@.subrange(0, i as int), tile_size),
                forall|j: int| 0 <= j < images@.len() ==> (#[trigger] images@[j]).wf(),
            decreases images@.len() - i,
        {
            let img = &images[i];
            assert(images@.subrange(0, i + 1).drop_last() =~= images@.subrange(0, i as int));
            if img.width > 0 && img.height > 0 {
                let key = average_color(img);
                let tile = resize_to_fill(img, tile_size, tile_size);
                lib.insert(key, tile);
            }
            i = i + 1;
        }
        assert(images@.subrange(0, images@.len() as int) =~= images@);
        lib
    }

    /// Index of the entry whose key is nearest to `q`, the earliest on ties.
    pub fn nearest_position(&self, q: &Rgb) -> (r: Result<usize, MosaicError>)
        ensures
            match r {
                Ok(i) => self.model().len() > 0 && i == nearest_index(self.model(), *q) && i < self.model().len(),
                Err(e) => self.model().len() == 0 && e == MosaicError::NoCandidateTiles,
            },
    {
        let n: usize = self.entries.len();
        if n == 0 {
            return Err(MosaicError::NoCandidateTiles);
        }
        let ghost m = self.model();
        let mut best: usize = 0;
        let mut best_d: u32 = distance_squared(q, &self.entries[0].key);
        let mut i: usize = 1;
        while i < n
            invariant
                n == m.len(),
                m == self.model(),
                1 <= i <= n,
                best == nearest_in(m, *q, i as int),
                best < i,
                best_d == sq_dist(*q, m[best as int].key),
            decreases n - i,
        {
            proof {
                lemma_nearest_in(m, *q, i as int);
            }
            let d = distance_squared(q, &self.entries[i].key);
            if d < best_d {
                best = i;
                best_d = d;
            }
            i = i + 1;
        }
        proof {
            lemma_nearest_in(m, *q, n as int);
        }
        Ok(best)
    }

    /// The key nearest to `q` and the residual `q - key`; fails when the
    /// library is empty.
    pub fn nearest(&self, q: &Rgb) -> (r: Result<(Rgb, Residual), MosaicError>)
        ensures
            match r {
                Ok((k, e)) => {
                    &&& self.model().len() > 0
                    &&& k == self.model()[nearest_index(self.model(), *q)].key
                    &&& e == residual_of(*q, k)
                },
                Err(e) => self.model().len() == 0 && e == MosaicError::NoCandidateTiles,
            },
    {
        match self.nearest_position(q) {
            Ok(i) => {
                proof {
                    lemma_nearest_is_argmin(self.model(), *q);
                }
                let k = self.entries[i].key;
                Ok((k, residual(q, &k)))
            },
            Err(e) => Err(e),
        }
    }
}

} // verus!
