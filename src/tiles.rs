use vstd::prelude::*;

use crate::index::{ShapeId, Tile, TileHashMap};
use crate::surfaces::{PoolExhausted, SurfacePool};

verus! {

/// Edge length of a tile, in pixels on screen.
pub const TILE_SIZE: i32 = 512;

/// Width and height of the surface behind one tile.
pub fn get_tile_dimensions() -> (r: (i32, i32))
    ensures
        r == (TILE_SIZE, TILE_SIZE),
{
    (TILE_SIZE, TILE_SIZE)
}

/// Maps tiles to the pool slots whose surfaces hold their cached content.
pub struct TileSurfaceCache<S> {
    pool: SurfacePool<S>,
    grid: Vec<(Tile, usize)>,
}

impl<S> TileSurfaceCache<S> {
    /// The cached tiles, each with its pool slot.
    pub closed spec fn entries(&self) -> Map<Tile, usize> {
        Map::new(
            |t: Tile| exists|i: int| 0 <= i < self.grid@.len() && self.grid@[i].0 == t,
            |t: Tile|
                self.grid@[choose|i: int| 0 <= i < self.grid@.len() && self.grid@[i].0 == t].1,
        )
    }

    /// The pool the surfaces come from.
    pub closed spec fn pool(&self) -> SurfacePool<S> {
        self.pool
    }

    /// The pool is well formed and no tile is listed twice.
    pub closed spec fn wf(&self) -> bool {
        &&& self.pool.wf()
        &&& forall|i: int, j: int|
            0 <= i < self.grid@.len() && 0 <= j < self.grid@.len() && i != j ==> #[trigger] self.grid@[i].0
                != #[trigger] self.grid@[j].0
    }

    /// A listed pair is what the map holds for its tile.
    proof fn lemma_entry_at(&self, i: int)
        requires
            self.wf(),
            0 <= i < self.grid@.len(),
        ensures
            self.entries().contains_key(self.grid@[i].0),
            self.entries()[self.grid@[i].0] == self.grid@[i].1,
    {
        let t = self.grid@[i].0;
        let k = choose|k: int| 0 <= k < self.grid@.len() && self.grid@[k].0 == t;
        assert(k == i);
    }

    /// An empty cache drawing from `pool`.
    pub fn new(pool: SurfacePool<S>) -> (r: Self)
        requires
            pool.wf(),
        ensures
            r.wf(),
            r.pool() == pool,
            r.entries() == Map::<Tile, usize>::empty(),
    {
        let r = TileSurfaceCache { pool, grid: Vec::new() };
        assert(r.entries() =~= Map::<Tile, usize>::empty());
        r
    }

    /// Where the tile is listed, if it is.
    fn position(&self, tile: Tile) -> (r: Option<usize>)
        ensures
            match r {
                Some(i) => i < self.grid@.len() && self.grid@[i as int].0 == tile,
                None => forall|i: int| 0 <= i < self.grid@.len() ==> self.grid@[i].0 != tile,
            },
    {
        let mut i: usize = 0;
        while i < self.grid.len()
            invariant
                i <= self.grid@.len(),
                forall|j: int| 0 <= j < i ==> self.grid@[j].0 != tile,
            decreases self.grid@.len() - i,
        {
            let (t, _) = self.grid[i];
            if t.0 == tile.0 && t.1 == tile.1 {
                return Some(i);
            }
            i += 1;
        }
        None
    }

    /// Whether the tile has a cached surface.
    pub fn has(&self, tile: Tile) -> (r: bool)
        ensures
            r == self.entries().contains_key(tile),
    {
        self.position(tile).is_some()
    }

    /// The pool slot cached for the tile, if any.
    pub fn get(&self, tile: Tile) -> (r: Option<usize>)
        requires
            self.wf(),
        ensures
            r == if self.entries().contains_key(tile) {
                Some(self.entries()[tile])
            } else {
                None::<usize>
            },
    {
        match self.position(tile) {
            Some(i) => {
                proof {
                    self.lemma_entry_at(i as int);
                }
                Some(self.grid[i].1)
            },
            None => None,
        }
    }

    /// Records `slot` as the surface of the tile, replacing any earlier one.
    pub fn set(&mut self, tile: Tile, slot: usize)
        requires
            old(self).wf(),
        ensures
            final(self).wf(),
            final(self).pool() == old(self).pool(),
            final(self).entries() == old(self).entries().insert(tile, slot),
    {
        let ghost mut at: int = 0;
        match self.position(tile) {
            Some(i) => {
                self.grid.set(i, (tile, slot));
                proof {
                    at = i as int;
                }
            },
            None => {
                self.grid.push((tile, slot));
                proof {
                    at = self.grid@.len() - 1;
                }
            },
        }
        assert(0 <= at < self.grid@.len() && self.grid@[at] == (tile, slot));
        proof {
            let o = old(self);
            let n = self.grid@.len();
            assert forall|k: int| 0 <= k < n implies #[trigger] self.grid@[k].0 == tile || (
            k < o.grid@.len() && self.grid@[k] == o.grid@[k]) by {}
            let e = o.entries().insert(tile, slot);
            assert forall|t: Tile| #[trigger] self.entries().contains_key(t) <==> e.contains_key(t) by {
                if e.contains_key(t) && t != tile {
                    let k = choose|k: int| 0 <= k < o.grid@.len() && o.grid@[k].0 == t;
                    assert(self.grid@[k].0 == t);
                }
                if t == tile {
                    assert(self.grid@[at].0 == tile);
                }
            }
            assert forall|t: Tile| #[trigger] self.entries().contains_key(t) implies self.entries()[t]
                == e[t] by {
                let k = choose|k: int| 0 <= k < n && self.grid@[k].0 == t;
                self.lemma_entry_at(k);
                if t != tile {
                    o.lemma_entry_at(k);
                }
            }
            assert(self.entries() =~= e);
        }
    }

    /// Draws a surface from the pool and caches it for the tile, replacing
    /// any earlier one. Fails, changing nothing, when the pool is exhausted.
    pub fn get_or_create(&mut self, tile: Tile) -> (r: Result<usize, PoolExhausted>)
        requires
            old(self).wf(),
        ensures
            final(self).wf(),
            final(self).pool().slots() == old(self).pool().slots(),
            old(self).pool().slots().len() == 0 ==> {
                &&& r == Err::<usize, PoolExhausted>(PoolExhausted)
                &&& final(self).pool().cursor() == old(self).pool().cursor()
                &&& final(self).entries() == old(self).entries()
            },
            old(self).pool().slots().len() > 0 ==> {
                &&& r == Ok::<usize, PoolExhausted>(old(self).pool().cursor() as usize)
                &&& final(self).pool().cursor() == (old(self).pool().cursor() + 1) % old(self).pool().slots().len()
                &&& final(self).entries() == old(self).entries().insert(
                    tile,
                    old(self).pool().cursor() as usize,
                )
            },
    {
        let slot = self.pool.allocate();
        match slot {
            Ok(s) => {
                self.set(tile, s);
                Ok(s)
            },
            Err(e) => Err(e),
        }
    }

    /// Forgets the tile's surface. Returns whether the tile had one.
    pub fn remove(&mut self, tile: Tile) -> (r: bool)
        requires
            old(self).wf(),
        ensures
            final(self).wf(),
            final(self).pool() == old(self).pool(),
            r == old(self).entries().contains_key(tile),
            final(self).entries() == old(self).entries().remove(tile),
    {
        match self.position(tile) {
            None => {
                assert(self.entries() =~= self.entries().remove(tile));
                false
            },
            Some(i) => {
                let ghost o = self.grid@;
                self.grid.remove(i);
                proof {
                    let old_self = old(self);
                    old_self.lemma_entry_at(i as int);
                    let n = self.grid@.len();
                    assert forall|k: int| 0 <= k < n implies #[trigger] self.grid@[k] == (if k < i {
                        o[k]
                    } else {
                        o[k + 1]
                    }) by {}
                    let e = old_self.entries().remove(tile);
                    assert forall|t: Tile| #[trigger] self.entries().contains_key(t) <==> e.contains_key(t) by {
                        if e.contains_key(t) {
                            let k = choose|k: int| 0 <= k < o.len() && o[k].0 == t;
                            if k < i {
                                assert(self.grid@[k].0 == t);
                            } else {
                                assert(self.grid@[k - 1].0 == t);
                            }
                        }
                    }
                    assert forall|t: Tile| #[trigger] self.entries().contains_key(t) implies self.entries()[t]
                        == e[t] by {
                        let k = choose|k: int| 0 <= k < n && self.grid@[k].0 == t;
                        self.lemma_entry_at(k);
                        if k < i {
                            old_self.lemma_entry_at(k);
                        } else {
                            old_self.lemma_entry_at(k + 1);
                        }
                    }
                    assert(self.entries() =~= e);
                }
                true
            },
        }
    }

    /// The surface in a pool slot, or `None` for a slot the pool does not have.
    pub fn surface_in_slot(&self, slot: usize) -> (r: Option<&S>)
        ensures
            r.is_some() == (slot < self.pool().slots().len()),
            r matches Some(s) ==> *s == self.pool().slots()[slot as int].surface,
    {
        if slot < self.pool.len() {
            Some(&self.pool.get(slot).surface)
        } else {
            None
        }
    }

    /// Forgets every tile's surface; the pool is kept.
    pub fn clear(&mut self)
        requires
            old(self).wf(),
        ensures
            final(self).wf(),
            final(self).pool() == old(self).pool(),
            final(self).entries() == Map::<Tile, usize>::empty(),
    {
        self.grid = Vec::new();
        assert(self.entries() =~= Map::<Tile, usize>::empty());
    }
}

/// Whether the tile lies in the inclusive range `(sx, sy, ex, ey)`.
pub open spec fn in_range(t: Tile, range: (i32, i32, i32, i32)) -> bool {
    &&& range.0 <= t.0 <= range.2
    &&& range.1 <= t.1 <= range.3
}

/// Whether the inclusive range `(sx, sy, ex, ey)` holds at least one tile.
pub open spec fn range_nonempty(range: (i32, i32, i32, i32)) -> bool {
    range.0 <= range.2 && range.1 <= range.3
}

/// What a map holds for a key, or the empty set where it holds nothing.
pub open spec fn set_or_empty<K, V>(m: Map<K, Set<V>>, k: K) -> Set<V> {
    if m.contains_key(k) {
        m[k]
    } else {
        Set::empty()
    }
}

/// Tiles visited so far by a scan of `range` column by column, now at `(x, y)`.
spec fn scanned(t: Tile, range: (i32, i32, i32, i32), x: int, y: int) -> bool {
    &&& in_range(t, range)
    &&& (t.0 < x || (t.0 == x && t.1 < y))
}

/// The tile state of a renderer: cached tile surfaces and the tile index.
pub struct Tiles<S> {
    surfaces: TileSurfaceCache<S>,
    shapes: TileHashMap,
}

impl<S> Tiles<S> {
    /// The cached tile surfaces.
    pub closed spec fn surfaces(&self) -> TileSurfaceCache<S> {
        self.surfaces
    }

    /// The tile index.
    pub closed spec fn shapes(&self) -> TileHashMap {
        self.shapes
    }

    /// Both parts are well formed.
    pub open spec fn wf(&self) -> bool {
        self.surfaces().wf() && self.shapes().wf()
    }

    /// Empty tile state drawing surfaces from `pool`.
    pub fn new(pool: SurfacePool<S>) -> (r: Self)
        requires
            pool.wf(),
        ensures
            r.wf(),
            r.surfaces().pool() == pool,
            r.surfaces().entries() == Map::<Tile, usize>::empty(),
            r.shapes().grid() == Map::<Tile, Set<ShapeId>>::empty(),
            r.shapes().index() == Map::<ShapeId, Set<Tile>>::empty(),
    {
        Tiles { surfaces: TileSurfaceCache::new(pool), shapes: TileHashMap::new() }
    }

    /// Drops every cached tile surface.
    pub fn invalidate_surfaces(&mut self)
        requires
            old(self).wf(),
        ensures
            final(self).wf(),
            final(self).surfaces().pool() == old(self).surfaces().pool(),
            final(self).surfaces().entries() == Map::<Tile, usize>::empty(),
            final(self).shapes() == old(self).shapes(),
    {
        self.surfaces.clear();
    }

    /// Empties the tile index.
    pub fn invalidate_shapes(&mut self)
        requires
            old(self).wf(),
        ensures
            final(self).wf(),
            final(self).surfaces() == old(self).surfaces(),
            final(self).shapes().grid() == Map::<Tile, Set<ShapeId>>::empty(),
            final(self).shapes().index() == Map::<ShapeId, Set<Tile>>::empty(),
    {
        self.shapes.clear();
    }

    /// Drops every cached tile surface and empties the tile index.
    pub fn invalidate_tiles(&mut self)
        requires
            old(self).wf(),
        ensures
            final(self).wf(),
            final(self).surfaces().pool() == old(self).surfaces().pool(),
            final(self).surfaces().entries() == Map::<Tile, usize>::empty(),
            final(self).shapes().grid() == Map::<Tile, Set<ShapeId>>::empty(),
            final(self).shapes().index() == Map::<ShapeId, Set<Tile>>::empty(),
    {
        self.surfaces.clear();
        self.shapes.clear();
    }

    /// Draws a pool surface for the tile; see `TileSurfaceCache::get_or_create`.
    pub fn get_or_create_surface_at(&mut self, tile: Tile) -> (r: Result<usize, PoolExhausted>)
        requires
            old(self).wf(),
        ensures
            final(self).wf(),
            final(self).shapes() == old(self).shapes(),
            final(self).surfaces().pool().slots() == old(self).surfaces().pool().slots(),
            old(self).surfaces().pool().slots().len() == 0 ==> {
                &&& r == Err::<usize, PoolExhausted>(PoolExhausted)
                &&& final(self).surfaces().pool().cursor() == old(self).surfaces().pool().cursor()
                &&& final(self).surfaces().entries() == old(self).surfaces().entries()
            },
            old(self).surfaces().pool().slots().len() > 0 ==> {
                &&& r == Ok::<usize, PoolExhausted>(old(self).surfaces().pool().cursor() as usize)
                &&& final(self).surfaces().pool().cursor() == (old(self).surfaces().pool().cursor() + 1) % old(self).surfaces().pool().slots().len()
                &&& final(self).surfaces().entries() == old(self).surfaces().entries().insert(
                    tile,
                    old(self).surfaces().pool().cursor() as usize,
                )
            },
    {
        self.surfaces.get_or_create(tile)
    }

    /// The surface in a pool slot, or `None` for a slot the pool does not have.
    pub fn surface_in_slot(&self, slot: usize) -> (r: Option<&S>)
        ensures
            r.is_some() == (slot < self.surfaces().pool().slots().len()),
            r matches Some(s) ==> *s == self.surfaces().pool().slots()[slot as int].surface,
    {
        self.surfaces.surface_in_slot(slot)
    }

    /// The number of elements registered in the tile; 0 where it has no entry.
    pub fn get_tile_shape_count(&self, tile: Tile) -> (r: usize)
        requires
            self.wf(),
        ensures
            r == set_or_empty(self.shapes().grid(), tile).len(),
    {
        let found = self.shapes.get_shapes_at(tile);
        match found {
            Some(v) => {
                proof {
                    v@.unique_seq_to_set();
                }
                v.len()
            },
            None => 0,
        }
    }

    /// Whether the tile has an entry in the index.
    pub fn has_tile_at(&self, tile: Tile) -> (r: bool)
        requires
            self.wf(),
        ensures
            r == self.shapes().grid().contains_key(tile),
    {
        self.shapes.has_shapes_at(tile)
    }

    /// The elements registered in the tile, or `None` where it has no entry.
    pub fn get_tile_at(&self, tile: Tile) -> (r: Option<Vec<ShapeId>>)
        requires
            self.wf(),
        ensures
            match r {
                None => !self.shapes().grid().contains_key(tile),
                Some(v) => {
                    &&& self.shapes().grid().contains_key(tile)
                    &&& v@.no_duplicates()
                    &&& v@.to_set() == self.shapes().grid()[tile]
                },
            },
    {
        self.shapes.get_shapes_at(tile)
    }

    /// Registers the element in every tile of the inclusive range
    /// `(sx, sy, ex, ey)` that its rectangle covers.
    pub fn update_tile_for(&mut self, range: (i32, i32, i32, i32), shape_id: ShapeId)
        requires
            old(self).wf(),
        ensures
            final(self).wf(),
            final(self).surfaces() == old(self).surfaces(),
            forall|t: Tile|
                #[trigger] final(self).shapes().grid().contains_key(t) <==> (old(self).shapes().grid().contains_key(t) || in_range(t, range)),
            forall|t: Tile| #[trigger]
                final(self).shapes().grid().contains_key(t) ==> final(self).shapes().grid()[t] == if in_range(
                    t,
                    range,
                ) {
                    set_or_empty(old(self).shapes().grid(), t).insert(shape_id)
                } else {
                    old(self).shapes().grid()[t]
                },
            forall|e: ShapeId|
                e != shape_id ==> (#[trigger] final(self).shapes().index().contains_key(e) == old(self).shapes().index().contains_key(e)),
            forall|e: ShapeId|
                e != shape_id && #[trigger] old(self).shapes().index().contains_key(e) ==> final(self).shapes().index()[e] == old(self).shapes().index()[e],
            final(self).shapes().index().contains_key(shape_id) == (old(self).shapes().index().contains_key(shape_id) || range_nonempty(range)),
            final(self).shapes().index().contains_key(shape_id) ==> forall|t: Tile|
                #[trigger] final(self).shapes().index()[shape_id].contains(t) == (set_or_empty(
                    old(self).shapes().index(),
                    shape_id,
                ).contains(t) || in_range(t, range)),
    {
        let ghost g = self.shapes.grid();
        let ghost ix = self.shapes.index();
        let (sx, sy, ex, ey) = range;
        let mut x: i64 = sx as i64;
        while x <= ex as i64
            invariant
                self.wf(),
                self.surfaces() == old(self).surfaces(),
                g == old(self).shapes().grid(),
                ix == old(self).shapes().index(),
                range == (sx, sy, ex, ey),
                sx <= x <= ex as int + 1 || (x == sx && sx > ex),
                forall|t: Tile|
                    #[trigger] self.shapes().grid().contains_key(t) <==> (g.contains_key(t) || scanned(
                        t,
                        range,
                        x as int,
                        sy as int,
                    )),
                forall|t: Tile| #[trigger]
                    self.shapes().grid().contains_key(t) ==> self.shapes().grid()[t] == if scanned(
                        t,
                        range,
                        x as int,
                        sy as int,
                    ) {
                        set_or_empty(g, t).insert(shape_id)
                    } else {
                        g[t]
                    },
                forall|e: ShapeId|
                    e != shape_id ==> (#[trigger] self.shapes().index().contains_key(e)
                        == ix.contains_key(e)),
                forall|e: ShapeId|
                    e != shape_id && #[trigger] ix.contains_key(e) ==> self.shapes().index()[e]
                        == ix[e],
                self.shapes().index().contains_key(shape_id) == (ix.contains_key(shape_id) || (x
                    > sx && sy <= ey)),
                self.shapes().index().contains_key(shape_id) ==> forall|t: Tile|
                    #[trigger] self.shapes().index()[shape_id].contains(t) == (set_or_empty(
                        ix,
                        shape_id,
                    ).contains(t) || scanned(t, range, x as int, sy as int)),
            decreases ex as int + 1 - x,
        {
            let mut y: i64 = sy as i64;
            while y <= ey as i64
                invariant
                    self.wf(),
                    self.surfaces() == old(self).surfaces(),
                    g == old(self).shapes().grid(),
                    ix == old(self).shapes().index(),
                    range == (sx, sy, ex, ey),
                    sx <= x <= ex,
                    sy <= y <= ey as int + 1 || (y == sy && sy > ey),
                    forall|t: Tile|
                        #[trigger] self.shapes().grid().contains_key(t) <==> (g.contains_key(t)
                            || scanned(t, range, x as int, y as int)),
                    forall|t: Tile| #[trigger]
                        self.shapes().grid().contains_key(t) ==> self.shapes().grid()[t] == if scanned(
                            t,
                            range,
                            x as int,
                            y as int,
                        ) {
                            set_or_empty(g, t).insert(shape_id)
                        } else {
                            g[t]
                        },
                    forall|e: ShapeId|
                        e != shape_id ==> (#[trigger] self.shapes().index().contains_key(e)
                            == ix.contains_key(e)),
                    forall|e: ShapeId|
                        e != shape_id && #[trigger] ix.contains_key(e) ==> self.shapes().index()[e]
                            == ix[e],
                    self.shapes().index().contains_key(shape_id) == (ix.contains_key(shape_id)
                        || ((x > sx || y > sy) && sy <= ey)),
                    self.shapes().index().contains_key(shape_id) ==> forall|t: Tile|
                        #[trigger] self.shapes().index()[shape_id].contains(t) == (set_or_empty(
                            ix,
                            shape_id,
                        ).contains(t) || scanned(t, range, x as int, y as int)),
                decreases ey as int + 1 - y,
            {
                let tile: Tile = (x as i32, y as i32);
                let ghost before = self.shapes;
                self.shapes.add_shape_at(tile, shape_id);
                proof {
                    assert forall|t: Tile| scanned(t, range, x as int, y as int + 1) <==> (scanned(
                        t,
                        range,
                        x as int,
                        y as int,
                    ) || t == tile) by {}
                }
                y += 1;
            }
            proof {
                assert forall|t: Tile| scanned(t, range, x as int, y as int) <==> scanned(
                    t,
                    range,
                    x as int + 1,
                    sy as int,
                ) by {}
            }
            x += 1;
        }
        proof {
            assert forall|t: Tile| scanned(t, range, x as int, sy as int) <==> in_range(t, range) by {}
        }
    }
}

} // verus!
