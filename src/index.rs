use vstd::prelude::*;

verus! {

broadcast use vstd::seq_lib::lemma_seq_contains_after_push;

/// Appending an item that is not there keeps a sequence free of duplicates.
proof fn lemma_push_no_duplicates<A>(s: Seq<A>, x: A)
    requires
        s.no_duplicates(),
        !s.contains(x),
    ensures
        s.push(x).no_duplicates(),
{
    assert forall|i: int, j: int|
        0 <= i < s.push(x).len() && 0 <= j < s.push(x).len() && i != j implies
        s.push(x)[i] != s.push(x)[j] by {
        if i < s.len() && j == s.len() {
            assert(s.contains(s[i]));
        }
        if j < s.len() && i == s.len() {
            assert(s.contains(s[j]));
        }
    }
}

/// A cell of the virtual tile grid, as (column, row).
pub type Tile = (i32, i32);

/// The identifier of a drawable element, as the 128-bit value of its UUID.
pub type ShapeId = u128;

/// Bidirectional index between tiles and the elements that intersect them.
///
/// The membership relation is stored once, so both directions are read from
/// the same data and can never disagree.
pub struct TileHashMap {
    tiles: Vec<Tile>,
    shapes: Vec<ShapeId>,
    links: Vec<(Tile, ShapeId)>,
}

impl TileHashMap {
    /// Every tile that has an entry, with the elements registered in it.
    pub closed spec fn grid(&self) -> Map<Tile, Set<ShapeId>> {
        Map::new(
            |t: Tile| self.tiles@.contains(t),
            |t: Tile| Set::new(|e: ShapeId| self.links@.contains((t, e))),
        )
    }

    /// Every element that has an entry, with the tiles it is registered in.
    pub closed spec fn index(&self) -> Map<ShapeId, Set<Tile>> {
        Map::new(
            |e: ShapeId| self.shapes@.contains(e),
            |e: ShapeId| Set::new(|t: Tile| self.links@.contains((t, e))),
        )
    }

    /// Each list holds an item at most once, and every link names a tile and
    /// an element that have entries.
    pub closed spec fn wf(&self) -> bool {
        &&& self.tiles@.no_duplicates()
        &&& self.shapes@.no_duplicates()
        &&& self.links@.no_duplicates()
        &&& forall|i: int|
            0 <= i < self.links@.len() ==> {
                &&& #[trigger] self.tiles@.contains(self.links@[i].0)
                &&& self.shapes@.contains(self.links@[i].1)
            }
    }

    /// An index with no entries.
    pub fn new() -> (r: Self)
        ensures
            r.wf(),
            r.grid() == Map::<Tile, Set<ShapeId>>::empty(),
            r.index() == Map::<ShapeId, Set<Tile>>::empty(),
    {
        let r = TileHashMap { tiles: Vec::new(), shapes: Vec::new(), links: Vec::new() };
        assert(r.grid() =~= Map::<Tile, Set<ShapeId>>::empty());
        assert(r.index() =~= Map::<ShapeId, Set<Tile>>::empty());
        r
    }

    fn find_tile(&self, tile: Tile) -> (r: bool)
        ensures
            r == self.tiles@.contains(tile),
    {
        let mut i: usize = 0;
        while i < self.tiles.len()
            invariant
                i <= self.tiles@.len(),
                forall|j: int| 0 <= j < i ==> self.tiles@[j] != tile,
            decreases self.tiles@.len() - i,
        {
            if self.tiles[i].0 == tile.0 && self.tiles[i].1 == tile.1 {
                return true;
            }
            i += 1;
        }
        false
    }

    fn find_shape(&self, shape_id: ShapeId) -> (r: bool)
        ensures
            r == self.shapes@.contains(shape_id),
    {
        let mut i: usize = 0;
        while i < self.shapes.len()
            invariant
                i <= self.shapes@.len(),
                forall|j: int| 0 <= j < i ==> self.shapes@[j] != shape_id,
            decreases self.shapes@.len() - i,
        {
            if self.shapes[i] == shape_id {
                return true;
            }
            i += 1;
        }
        false
    }

    fn find_link(&self, tile: Tile, shape_id: ShapeId) -> (r: bool)
        ensures
            r == self.links@.contains((tile, shape_id)),
    {
        let mut i: usize = 0;
        while i < self.links.len()
            invariant
                i <= self.links@.len(),
                forall|j: int| 0 <= j < i ==> self.links@[j] != (tile, shape_id),
            decreases self.links@.len() - i,
        {
            let (t, e) = self.links[i];
            if t.0 == tile.0 && t.1 == tile.1 && e == shape_id {
                return true;
            }
            i += 1;
        }
        false
    }

    /// Whether the tile has an entry (possibly an empty one).
    pub fn has_shapes_at(&self, tile: Tile) -> (r: bool)
        ensures
            r == self.grid().contains_key(tile),
    {
        self.find_tile(tile)
    }

    /// Registers the element in the tile, creating both entries as needed.
    pub fn add_shape_at(&mut self, tile: Tile, shape_id: ShapeId)
        requires
            old(self).wf(),
        ensures
            final(self).wf(),
            final(self).grid() == old(self).grid().insert(
                tile,
                if old(self).grid().contains_key(tile) {
                    old(self).grid()[tile].insert(shape_id)
                } else {
                    set![shape_id]
                },
            ),
            final(self).index() == old(self).index().insert(
                shape_id,
                if old(self).index().contains_key(shape_id) {
                    old(self).index()[shape_id].insert(tile)
                } else {
                    set![tile]
                },
            ),
    {
        if !self.find_tile(tile) {
            proof {
                lemma_push_no_duplicates(self.tiles@, tile);
            }
            self.tiles.push(tile);
            assert(self.tiles@[self.tiles@.len() - 1] == tile);
        }
        assert(self.tiles@.contains(tile));
        if !self.find_shape(shape_id) {
            proof {
                lemma_push_no_duplicates(self.shapes@, shape_id);
            }
            self.shapes.push(shape_id);
            assert(self.shapes@[self.shapes@.len() - 1] == shape_id);
        }
        assert(self.shapes@.contains(shape_id));
        if !self.find_link(tile, shape_id) {
            proof {
                lemma_push_no_duplicates(self.links@, (tile, shape_id));
            }
            self.links.push((tile, shape_id));
            assert(self.links@[self.links@.len() - 1] == (tile, shape_id));
        }
        assert(self.links@.contains((tile, shape_id)));
        proof {
            let o = old(self);
            assert(self.tiles@.no_duplicates());
            assert(self.shapes@.no_duplicates());
            assert(self.links@.no_duplicates());
            assert forall|i: int| 0 <= i < self.links@.len() implies {
                &&& #[trigger] self.tiles@.contains(self.links@[i].0)
                &&& self.shapes@.contains(self.links@[i].1)
            } by {
                if i < o.links@.len() {
                    assert(o.links@[i] == self.links@[i]);
                    assert(o.tiles@.contains(o.links@[i].0));
                    assert(o.shapes@.contains(o.links@[i].1));
                }
            }
            assert(self.wf());
            assert(self.grid() =~= o.grid().insert(
                tile,
                if o.grid().contains_key(tile) {
                    o.grid()[tile].insert(shape_id)
                } else {
                    set![shape_id]
                },
            )) by {
                assert forall|t: Tile| #[trigger] self.grid().contains_key(t) implies
                    self.grid()[t] =~= o.grid().insert(
                        tile,
                        if o.grid().contains_key(tile) {
                            o.grid()[tile].insert(shape_id)
                        } else {
                            set![shape_id]
                        },
                    )[t] by {
                    if t == tile && !o.grid().contains_key(tile) {
                        assert forall|e: ShapeId| o.links@.contains((t, e)) implies false by {
                            let i = choose|i: int| 0 <= i < o.links@.len() && o.links@[i] == (t, e);
                            assert(o.tiles@.contains(o.links@[i].0));
                        }
                    }
                }
            }
            assert(self.index() =~= o.index().insert(
                shape_id,
                if o.index().contains_key(shape_id) {
                    o.index()[shape_id].insert(tile)
                } else {
                    set![tile]
                },
            )) by {
                assert forall|e: ShapeId| #[trigger] self.index().contains_key(e) implies
                    self.index()[e] =~= o.index().insert(
                        shape_id,
                        if o.index().contains_key(shape_id) {
                            o.index()[shape_id].insert(tile)
                        } else {
                            set![tile]
                        },
                    )[e] by {
                    if e == shape_id && !o.index().contains_key(shape_id) {
                        assert forall|t: Tile| o.links@.contains((t, e)) implies false by {
                            let i = choose|i: int| 0 <= i < o.links@.len() && o.links@[i] == (t, e);
                            assert(o.tiles@.contains(o.links@[i].0));
                        }
                    }
                }
            }
        }
    }

    /// The elements linked to `tile`, each once.
    fn shapes_in(&self, tile: Tile) -> (r: Vec<ShapeId>)
        requires
            self.wf(),
        ensures
            r@.no_duplicates(),
            forall|e: ShapeId| r@.contains(e) <==> self.links@.contains((tile, e)),
    {
        let mut r: Vec<ShapeId> = Vec::new();
        let mut i: usize = 0;
        while i < self.links.len()
            invariant
                self.wf(),
                i <= self.links@.len(),
                r@.no_duplicates(),
                forall|e: ShapeId|
                    r@.contains(e) ==> exists|j: int|
                        0 <= j < i && #[trigger] self.links@[j] == (tile, e),
                forall|j: int|
                    0 <= j < i && self.links@[j].0 == tile ==> r@.contains(#[trigger] self.links@[j].1),
            decreases self.links@.len() - i,
        {
            let (t, e) = self.links[i];
            if t.0 == tile.0 && t.1 == tile.1 {
                proof {
                    if r@.contains(e) {
                        let j = choose|j: int| 0 <= j < i && #[trigger] self.links@[j] == (tile, e);
                        assert(self.links@[j] == self.links@[i as int]);
                    }
                    lemma_push_no_duplicates(r@, e);
                }
                r.push(e);
            }
            i += 1;
        }
        proof {
            assert forall|e: ShapeId| self.links@.contains((tile, e)) implies r@.contains(e) by {
                let j = choose|j: int| 0 <= j < self.links@.len() && self.links@[j] == (tile, e);
                assert(self.links@[j].0 == tile);
                assert(r@.contains(self.links@[j].1));
            }
        }
        r
    }

    /// The tiles linked to `shape_id`, each once.
    fn tiles_of(&self, shape_id: ShapeId) -> (r: Vec<Tile>)
        requires
            self.wf(),
        ensures
            r@.no_duplicates(),
            forall|t: Tile| r@.contains(t) <==> self.links@.contains((t, shape_id)),
    {
        let mut r: Vec<Tile> = Vec::new();
        let mut i: usize = 0;
        while i < self.links.len()
            invariant
                self.wf(),
                i <= self.links@.len(),
                r@.no_duplicates(),
                forall|t: Tile|
                    r@.contains(t) ==> exists|j: int|
                        0 <= j < i && #[trigger] self.links@[j] == (t, shape_id),
                forall|j: int|
                    0 <= j < i && self.links@[j].1 == shape_id ==> r@.contains(#[trigger] self.links@[j].0),
            decreases self.links@.len() - i,
        {
            let (t, e) = self.links[i];
            if e == shape_id {
                proof {
                    if r@.contains(t) {
                        let j = choose|j: int| 0 <= j < i && #[trigger] self.links@[j] == (t, shape_id);
                        assert(self.links@[j] == self.links@[i as int]);
                    }
                    lemma_push_no_duplicates(r@, t);
                }
                r.push(t);
            }
            i += 1;
        }
        proof {
            assert forall|t: Tile| self.links@.contains((t, shape_id)) implies r@.contains(t) by {
                let j = choose|j: int| 0 <= j < self.links@.len() && self.links@[j] == (t, shape_id);
                assert(self.links@[j].1 == shape_id);
                assert(r@.contains(self.links@[j].0));
            }
        }
        r
    }

    /// Whether a link is dropped when removing the elements of `drop`, in
    /// every tile or only in `only`.
    spec fn dropped(x: (Tile, ShapeId), drop: Seq<ShapeId>, only: Option<Tile>) -> bool {
        &&& drop.contains(x.1)
        &&& match only {
            None => true,
            Some(t) => x.0 == t,
        }
    }

    /// The links that are kept when removing the elements of `drop`, in every
    /// tile or only in `only`.
    fn links_without(&self, drop: &Vec<ShapeId>, only: Option<Tile>) -> (r: Vec<(Tile, ShapeId)>)
        requires
            self.wf(),
        ensures
            r@.no_duplicates(),
            forall|x: (Tile, ShapeId)|
                #[trigger] r@.contains(x) <==> (self.links@.contains(x) && !Self::dropped(x, drop@, only)),
    {
        let mut r: Vec<(Tile, ShapeId)> = Vec::new();
        let mut i: usize = 0;
        while i < self.links.len()
            invariant
                self.wf(),
                i <= self.links@.len(),
                r@.no_duplicates(),
                forall|x: (Tile, ShapeId)|
                    r@.contains(x) ==> !Self::dropped(x, drop@, only) && exists|j: int|
                        0 <= j < i && #[trigger] self.links@[j] == x,
                forall|j: int|
                    0 <= j < i && !Self::dropped(self.links@[j], drop@, only) ==> r@.contains(
                        #[trigger] self.links@[j],
                    ),
            decreases self.links@.len() - i,
        {
            let x = self.links[i];
            let mut listed = false;
            let mut k: usize = 0;
            while k < drop.len()
                invariant
                    k <= drop@.len(),
                    listed == exists|m: int| 0 <= m < k && drop@[m] == x.1,
                decreases drop@.len() - k,
            {
                if drop[k] == x.1 {
                    listed = true;
                }
                k += 1;
            }
            let in_scope = match only {
                None => true,
                Some(t) => t.0 == x.0.0 && t.1 == x.0.1,
            };
            if !(listed && in_scope) {
                proof {
                    if r@.contains(x) {
                        let j = choose|j: int| 0 <= j < i && #[trigger] self.links@[j] == x;
                        assert(self.links@[j] == self.links@[i as int]);
                    }
                    lemma_push_no_duplicates(r@, x);
                }
                r.push(x);
            }
            i += 1;
        }
        proof {
            assert forall|x: (Tile, ShapeId)|
                self.links@.contains(x) && !Self::dropped(x, drop@, only) implies r@.contains(x) by {
                let j = choose|j: int| 0 <= j < self.links@.len() && self.links@[j] == x;
            }
        }
        r
    }

    /// Drops the links of the given elements and keeps the wf of the index.
    fn remove_links(&mut self, drop: &Vec<ShapeId>, only: Option<Tile>)
        requires
            old(self).wf(),
        ensures
            final(self).wf(),
            final(self).tiles == old(self).tiles,
            final(self).shapes == old(self).shapes,
            forall|x: (Tile, ShapeId)|
                #[trigger] final(self).links@.contains(x) <==> (old(self).links@.contains(x)
                    && !Self::dropped(x, drop@, only)),
    {
        let kept = self.links_without(drop, only);
        proof {
            assert forall|i: int| 0 <= i < kept@.len() implies {
                &&& #[trigger] self.tiles@.contains(kept@[i].0)
                &&& self.shapes@.contains(kept@[i].1)
            } by {
                assert(kept@.contains(kept@[i]));
                let j = choose|j: int| 0 <= j < self.links@.len() && self.links@[j] == kept@[i];
                assert(self.tiles@.contains(self.links@[j].0));
            }
        }
        self.links = kept;
    }

    /// Removes the element from every tile it is registered in, and empties
    /// its own entry.
    pub fn remove_shape(&mut self, shape_id: ShapeId)
        requires
            old(self).wf(),
        ensures
            final(self).wf(),
            final(self).grid() == old(self).grid().map_values(
                |s: Set<ShapeId>| s.remove(shape_id),
            ),
            final(self).index() == if old(self).index().contains_key(shape_id) {
                old(self).index().insert(shape_id, Set::empty())
            } else {
                old(self).index()
            },
    {
        let drop = vec![shape_id];
        self.remove_links(&drop, None);
        proof {
            let o = old(self);
            assert(drop@ == seq![shape_id]);
            assert forall|e: ShapeId| drop@.contains(e) <==> e == shape_id by {
                if e == shape_id {
                    assert(drop@[0] == e);
                }
            }
            assert(self.grid() =~= o.grid().map_values(|s: Set<ShapeId>| s.remove(shape_id))) by {
                assert forall|t: Tile| #[trigger] self.grid().contains_key(t) implies self.grid()[t]
                    =~= o.grid()[t].remove(shape_id) by {
                    assert forall|e: ShapeId| #[trigger] self.grid()[t].contains(e) <==> o.grid()[
                        t
                    ].remove(shape_id).contains(e) by {
                        assert(self.links@.contains((t, e)) <==> (o.links@.contains((t, e))
                            && !Self::dropped((t, e), drop@, None)));
                    }
                }
            }
            let expect = if o.index().contains_key(shape_id) {
                o.index().insert(shape_id, Set::empty())
            } else {
                o.index()
            };
            assert(self.index() =~= expect) by {
                assert forall|e: ShapeId| #[trigger] self.index().contains_key(e) implies self.index()[e]
                    =~= expect[e] by {
                    assert forall|t: Tile| #[trigger] self.index()[e].contains(t) <==> expect[e].contains(t) by {
                        assert(self.links@.contains((t, e)) <==> (o.links@.contains((t, e))
                            && !Self::dropped((t, e), drop@, None)));
                    }
                }
            }
        }
    }

    /// Removes one registration. Returns false, changing nothing, where the
    /// tile has no entry.
    pub fn remove_shape_at(&mut self, tile: Tile, shape_id: ShapeId) -> (r: bool)
        requires
            old(self).wf(),
        ensures
            final(self).wf(),
            r == old(self).grid().contains_key(tile),
            !r ==> final(self).grid() == old(self).grid() && final(self).index() == old(self).index(),
            r ==> final(self).grid() == old(self).grid().insert(
                tile,
                old(self).grid()[tile].remove(shape_id),
            ),
            r ==> final(self).index() == if old(self).index().contains_key(shape_id) {
                old(self).index().insert(shape_id, old(self).index()[shape_id].remove(tile))
            } else {
                old(self).index()
            },
    {
        if !self.find_tile(tile) {
            return false;
        }
        let drop = vec![shape_id];
        self.remove_links(&drop, Some(tile));
        proof {
            let o = old(self);
            assert(drop@ == seq![shape_id]);
            assert forall|e: ShapeId| drop@.contains(e) <==> e == shape_id by {
                if e == shape_id {
                    assert(drop@[0] == e);
                }
            }
            let eg = o.grid().insert(tile, o.grid()[tile].remove(shape_id));
            assert(self.grid() =~= eg) by {
                assert forall|t: Tile| #[trigger] self.grid().contains_key(t) implies self.grid()[t]
                    =~= eg[t] by {
                    assert forall|e: ShapeId| #[trigger] self.grid()[t].contains(e) <==> eg[t].contains(e) by {
                        assert(self.links@.contains((t, e)) <==> (o.links@.contains((t, e))
                            && !Self::dropped((t, e), drop@, Some(tile))));
                    }
                }
            }
            let ei = if o.index().contains_key(shape_id) {
                o.index().insert(shape_id, o.index()[shape_id].remove(tile))
            } else {
                o.index()
            };
            assert(self.index() =~= ei) by {
                assert forall|e: ShapeId| #[trigger] self.index().contains_key(e) implies self.index()[e]
                    =~= ei[e] by {
                    assert forall|t: Tile| #[trigger] self.index()[e].contains(t) <==> ei[e].contains(t) by {
                        assert(self.links@.contains((t, e)) <==> (o.links@.contains((t, e))
                            && !Self::dropped((t, e), drop@, Some(tile))));
                    }
                }
            }
        }
        true
    }

    /// Empties the tile, and every element that was in it loses all of its
    /// registrations, in this tile and in every other. Returns false,
    /// changing nothing, where the tile has no entry.
    pub fn remove_all_shapes_at(&mut self, tile: Tile) -> (r: bool)
        requires
            old(self).wf(),
        ensures
            final(self).wf(),
            r == old(self).grid().contains_key(tile),
            !r ==> final(self).grid() == old(self).grid() && final(self).index() == old(self).index(),
            r ==> final(self).grid() == old(self).grid().map_values(
                |s: Set<ShapeId>| s.difference(old(self).grid()[tile]),
            ),
            r ==> final(self).index() == Map::new(
                |e: ShapeId| old(self).index().contains_key(e),
                |e: ShapeId|
                    if old(self).grid()[tile].contains(e) {
                        Set::empty()
                    } else {
                        old(self).index()[e]
                    },
            ),
    {
        if !self.find_tile(tile) {
            return false;
        }
        let drop = self.shapes_in(tile);
        self.remove_links(&drop, None);
        proof {
            let o = old(self);
            let gone = o.grid()[tile];
            assert forall|e: ShapeId| drop@.contains(e) <==> gone.contains(e) by {}
            let eg = o.grid().map_values(|s: Set<ShapeId>| s.difference(gone));
            assert(self.grid() =~= eg) by {
                assert forall|t: Tile| #[trigger] self.grid().contains_key(t) implies self.grid()[t]
                    =~= eg[t] by {
                    assert forall|e: ShapeId| #[trigger] self.grid()[t].contains(e) <==> eg[t].contains(e) by {
                        assert(self.links@.contains((t, e)) <==> (o.links@.contains((t, e))
                            && !Self::dropped((t, e), drop@, None)));
                    }
                }
            }
            let ei = Map::new(
                |e: ShapeId| o.index().contains_key(e),
                |e: ShapeId|
                    if gone.contains(e) {
                        Set::empty()
                    } else {
                        o.index()[e]
                    },
            );
            assert(self.index() =~= ei) by {
                assert forall|e: ShapeId| #[trigger] self.index().contains_key(e) implies self.index()[e]
                    =~= ei[e] by {
                    assert forall|t: Tile| #[trigger] self.index()[e].contains(t) <==> ei[e].contains(t) by {
                        assert(self.links@.contains((t, e)) <==> (o.links@.contains((t, e))
                            && !Self::dropped((t, e), drop@, None)));
                    }
                }
            }
        }
        true
    }

    /// The elements registered in the tile, or `None` where the tile has no entry.
    pub fn get_shapes_at(&self, tile: Tile) -> (r: Option<Vec<ShapeId>>)
        requires
            self.wf(),
        ensures
            match r {
                None => !self.grid().contains_key(tile),
                Some(v) => {
                    &&& self.grid().contains_key(tile)
                    &&& v@.no_duplicates()
                    &&& v@.to_set() == self.grid()[tile]
                },
            },
    {
        if !self.find_tile(tile) {
            return None;
        }
        let v = self.shapes_in(tile);
        assert(v@.to_set() =~= self.grid()[tile]);
        Some(v)
    }

    /// The tiles the element is registered in, or `None` where it has no entry.
    pub fn get_tiles_of(&self, shape_id: ShapeId) -> (r: Option<Vec<Tile>>)
        requires
            self.wf(),
        ensures
            match r {
                None => !self.index().contains_key(shape_id),
                Some(v) => {
                    &&& self.index().contains_key(shape_id)
                    &&& v@.no_duplicates()
                    &&& v@.to_set() == self.index()[shape_id]
                },
            },
    {
        if !self.find_shape(shape_id) {
            return None;
        }
        let v = self.tiles_of(shape_id);
        assert(v@.to_set() =~= self.index()[shape_id]);
        Some(v)
    }

    /// Empties both directions.
    pub fn clear(&mut self)
        ensures
            final(self).wf(),
            final(self).grid() == Map::<Tile, Set<ShapeId>>::empty(),
            final(self).index() == Map::<ShapeId, Set<Tile>>::empty(),
    {
        *self = TileHashMap::new();
    }
}

/// Both directions of a well-formed index agree: an element is registered in
/// a tile exactly when that tile is registered for the element. Every
/// operation of `TileHashMap` keeps the index well formed, so this holds after
/// any sequence of them.
pub proof fn lemma_grid_index_agree(m: &TileHashMap)
    requires
        m.wf(),
    ensures
        forall|t: Tile, e: ShapeId|
            #![trigger m.grid()[t].contains(e)]
            #![trigger m.index()[e].contains(t)]
            (m.grid().contains_key(t) && m.grid()[t].contains(e)) <==> (m.index().contains_key(e)
                && m.index()[e].contains(t)),
{
    assert forall|t: Tile, e: ShapeId|
        #![trigger m.grid()[t].contains(e)]
        #![trigger m.index()[e].contains(t)]
        (m.grid().contains_key(t) && m.grid()[t].contains(e)) <==> (m.index().contains_key(e)
            && m.index()[e].contains(t)) by {
        if m.links@.contains((t, e)) {
            let i = choose|i: int| 0 <= i < m.links@.len() && m.links@[i] == (t, e);
            assert(m.tiles@.contains(m.links@[i].0));
        }
    }
}

} // verus!
