//! The runtime state of one game: a generated map bound to the registry of
//! still-covered positions.
//!
//! The registry maps each covered coordinate to an opaque handle owned by
//! the renderer (a cover visual's identifier); the board never interprets
//! it. A coordinate is in the registry exactly as long as its tile has not
//! been revealed, and `try_uncover_tile` is the only operation that removes
//! an entry.

use vstd::prelude::*;

use crate::coordinates::{is_adjacent, Coordinates};
use crate::tile::Tile;
use crate::tile_map::{
    lemma_cell_index_fits, lemma_cell_index_in_range, lemma_cell_index_injective, TileMap,
};

verus! {

/// How many slots of the registry vector are occupied.
pub open spec fn count_some(s: Seq<Option<u64>>) -> int
    decreases s.len(),
{
    if s.len() == 0 {
        0
    } else {
        count_some(s.drop_last()) + if s.last() is Some {
            1int
        } else {
            0int
        }
    }
}

proof fn lemma_count_some_push(s: Seq<Option<u64>>, v: Option<u64>)
    ensures
        count_some(s.push(v)) == count_some(s) + if v is Some {
            1int
        } else {
            0int
        },
{
    assert(s.push(v).drop_last() =~= s);
}

proof fn lemma_count_some_update(s: Seq<Option<u64>>, i: int, v: Option<u64>)
    requires
        0 <= i < s.len(),
    ensures
        count_some(s.update(i, v)) == count_some(s) - (if s[i] is Some {
            1int
        } else {
            0int
        }) + (if v is Some {
            1int
        } else {
            0int
        }),
    decreases s.len(),
{
    if i == s.len() - 1 {
        assert(s.update(i, v).drop_last() =~= s.drop_last());
        assert(s.update(i, v).last() == v);
    } else {
        lemma_count_some_update(s.drop_last(), i, v);
        assert(s.update(i, v).drop_last() =~= s.drop_last().update(i, v));
        assert(s.update(i, v).last() == s.last());
    }
}

proof fn lemma_count_some_bounds(s: Seq<Option<u64>>)
    ensures
        0 <= count_some(s) <= s.len(),
    decreases s.len(),
{
    if s.len() > 0 {
        lemma_count_some_bounds(s.drop_last());
    }
}

/// In a well-formed board the covered count lies between zero and the
/// number of cells.
pub proof fn lemma_covered_count_in_range(b: Board)
    requires
        b.wf(),
    ensures
        0 <= b.covered_count() <= b.spec_tile_map().area(),
{
    lemma_count_some_bounds(b.covered_seq());
}

/// The mutable state of one game: the generated map, and one registry slot
/// per cell holding the cover handle while the cell is still covered.
pub struct Board {
    tile_map: TileMap,
    covered: Vec<Option<u64>>,
    covered_len: usize,
}

impl Board {
    /// The generated map the board plays on.
    pub closed spec fn spec_tile_map(&self) -> TileMap {
        self.tile_map
    }

    /// The registry slots in row-major cell order.
    pub closed spec fn covered_seq(&self) -> Seq<Option<u64>> {
        self.covered@
    }

    /// The registry slot of a coordinate.
    pub open spec fn slot(&self, c: Coordinates) -> Option<u64> {
        self.covered_seq()[c.y * self.spec_tile_map().spec_width() + c.x]
    }

    /// Whether the tile at `c` is still covered.
    pub open spec fn is_covered(&self, c: Coordinates) -> bool {
        self.spec_tile_map().in_bounds(c) && self.slot(c) is Some
    }

    /// The cover handle registered for a covered coordinate.
    pub open spec fn handle_of(&self, c: Coordinates) -> u64 {
        match self.slot(c) {
            Some(handle) => handle,
            None => 0,
        }
    }

    /// The number of currently covered coordinates.
    pub open spec fn covered_count(&self) -> int {
        count_some(self.covered_seq())
    }

    /// The stored occupancy count agrees with the registry's contents.
    pub closed spec fn count_cache_exact(&self) -> bool {
        self.covered_len as int == count_some(self.covered@)
    }

    /// Well-formedness: the map is well-formed, the registry has one slot
    /// per cell, and the cached occupancy count is exact.
    pub open spec fn wf(&self) -> bool {
        &&& self.spec_tile_map().wf()
        &&& self.covered_seq().len() == self.spec_tile_map().area()
        &&& self.count_cache_exact()
    }

    /// The generated map the board plays on.
    pub fn tile_map(&self) -> (tm: &TileMap)
        ensures
            *tm == self.spec_tile_map(),
    {
        &self.tile_map
    }

    /// The number of currently covered coordinates.
    pub fn num_covered(&self) -> (k: usize)
        requires
            self.wf(),
        ensures
            k as int == self.covered_count(),
    {
        self.covered_len
    }

    /// Binds a freshly generated map to a full registry: every cell starts
    /// covered, cell (`x`, `y`) under the handle at index `y * width + x` of
    /// `handles`.
    pub fn new(tile_map: TileMap, handles: &Vec<u64>) -> (b: Board)
        requires
            tile_map.wf(),
            handles@.len() == tile_map.area(),
        ensures
            b.wf(),
            b.spec_tile_map() == tile_map,
            forall|c: Coordinates| #[trigger] b.is_covered(c) <==> tile_map.in_bounds(c),
            forall|c: Coordinates|
                tile_map.in_bounds(c) ==> #[trigger] b.handle_of(c) == handles@[c.y
                    * tile_map.spec_width() + c.x],
            b.covered_count() == tile_map.area(),
    {
        let n = handles.len();
        let mut covered: Vec<Option<u64>> = Vec::new();
        let mut i: usize = 0;
        while i < n
            invariant
                covered@.len() == i,
                i <= n,
                handles@.len() == n,
                count_some(covered@) == i,
                forall|p: int| 0 <= p < i ==> (#[trigger] covered@[p]) == Some(handles@[p]),
            decreases n - i,
        {
            let hv = handles[i];
            proof {
                lemma_count_some_push(covered@, Some(hv));
            }
            covered.push(Some(hv));
            i = i + 1;
        }
        let b = Board { tile_map, covered, covered_len: n };
        proof {
            assert forall|c: Coordinates| #[trigger] b.is_covered(c) <==> tile_map.in_bounds(
                c,
            ) by {
                if tile_map.in_bounds(c) {
                    lemma_cell_index_in_range(
                        tile_map.spec_width() as int,
                        tile_map.spec_height() as int,
                        c.x as int,
                        c.y as int,
                    );
                }
            }
            assert forall|c: Coordinates| tile_map.in_bounds(c) implies #[trigger] b.handle_of(c)
                == handles@[c.y * tile_map.spec_width() + c.x] by {
                lemma_cell_index_in_range(
                    tile_map.spec_width() as int,
                    tile_map.spec_height() as int,
                    c.x as int,
                    c.y as int,
                );
            }
        }
        b
    }

    /// The registry entry for `c` when it is currently covered, else nothing
    /// ("nothing to uncover": off the grid, or already revealed). No side
    /// effect.
    pub fn tile_to_uncover(&self, coords: &Coordinates) -> (r: Option<u64>)
        requires
            self.wf(),
        ensures
            r == if self.is_covered(*coords) {
                Some(self.handle_of(*coords))
            } else {
                None::<u64>
            },
    {
        let c = *coords;
        if c.x < self.tile_map.width() && c.y < self.tile_map.height() {
            proof {
                lemma_cell_index_in_range(
                    self.tile_map.spec_width() as int,
                    self.tile_map.spec_height() as int,
                    c.x as int,
                    c.y as int,
                );
                lemma_cell_index_fits(self.tile_map.spec_width() as int, c.x as int, c.y as int);
            }
            let idx: usize = (c.y as usize) * (self.tile_map.width() as usize) + (c.x as usize);
            self.covered[idx]
        } else {
            None
        }
    }

    /// Uncovers `c`: when it is currently covered, removes it from the
    /// registry and returns its handle so the caller can dispose of the
    /// cover visual; otherwise a no-op returning nothing. Idempotent per
    /// coordinate, and the only transition from covered to revealed: the
    /// covered count drops by exactly one on success and never grows.
    pub fn try_uncover_tile(&mut self, coords: &Coordinates) -> (r: Option<u64>)
        requires
            old(self).wf(),
        ensures
            final(self).wf(),
            final(self).spec_tile_map() == old(self).spec_tile_map(),
            r == if old(self).is_covered(*coords) {
                Some(old(self).handle_of(*coords))
            } else {
                None::<u64>
            },
            !final(self).is_covered(*coords),
            forall|d: Coordinates|
                d != *coords ==> #[trigger] final(self).is_covered(d) == old(self).is_covered(d),
            forall|d: Coordinates|
                final(self).is_covered(d) ==> #[trigger] final(self).handle_of(d) == old(
                    self,
                ).handle_of(d),
            final(self).covered_count() == old(self).covered_count() - (if old(self).is_covered(
                *coords,
            ) {
                1int
            } else {
                0int
            }),
    {
        let c = *coords;
        let ghost w = self.tile_map.spec_width() as int;
        let ghost h = self.tile_map.spec_height() as int;
        if c.x < self.tile_map.width() && c.y < self.tile_map.height() {
            proof {
                lemma_cell_index_in_range(w, h, c.x as int, c.y as int);
                lemma_cell_index_fits(w, c.x as int, c.y as int);
            }
            let idx: usize = (c.y as usize) * (self.tile_map.width() as usize) + (c.x as usize);
            match self.covered[idx] {
                Some(handle) => {
                    proof {
                        lemma_count_some_update(self.covered@, idx as int, None);
                        lemma_count_some_bounds(self.covered@.update(idx as int, None));
                    }
                    self.covered.set(idx, None);
                    self.covered_len = self.covered_len - 1;
                    proof {
                        assert forall|d: Coordinates| d != c implies #[trigger] self.is_covered(d)
                            == old(self).is_covered(d) by {
                            if self.spec_tile_map().in_bounds(d) {
                                lemma_cell_index_in_range(w, h, d.x as int, d.y as int);
                            }
                            if self.spec_tile_map().in_bounds(d) && (d.y as int) * w + (
                            d.x as int) == (c.y as int) * w + (c.x as int) {
                                lemma_cell_index_injective(
                                    w,
                                    d.x as int,
                                    d.y as int,
                                    c.x as int,
                                    c.y as int,
                                );
                            }
                        }
                        assert forall|d: Coordinates| self.is_covered(d) implies
                            #[trigger] self.handle_of(d) == old(self).handle_of(d) by {
                            lemma_cell_index_in_range(w, h, d.x as int, d.y as int);
                            if (d.y as int) * w + (d.x as int) == (c.y as int) * w + (
                            c.x as int) {
                                lemma_cell_index_injective(
                                    w,
                                    d.x as int,
                                    d.y as int,
                                    c.x as int,
                                    c.y as int,
                                );
                            }
                        }
                    }
                    Some(handle)
                },
                None => None,
            }
        } else {
            None
        }
    }

    /// The tile at a coordinate (a read-only pass-through to the map), or
    /// nothing when the coordinate lies off the grid.
    pub fn tile_at(&self, c: Coordinates) -> (r: Option<Tile>)
        requires
            self.wf(),
        ensures
            r == if self.spec_tile_map().in_bounds(c) {
                Some(self.spec_tile_map().spec_tile(c))
            } else {
                None::<Tile>
            },
    {
        self.tile_map.tile_at(c)
    }

    /// Appends `(x, y)` to `v` when it is still covered; otherwise leaves
    /// `v` unchanged.
    fn push_if_covered(&self, v: &mut Vec<Coordinates>, x: u16, y: u16)
        requires
            self.wf(),
        ensures
            final(v)@ == if self.is_covered(Coordinates { x, y }) {
                old(v)@.push(Coordinates { x, y })
            } else {
                old(v)@
            },
    {
        if x < self.tile_map.width() && y < self.tile_map.height() {
            proof {
                lemma_cell_index_in_range(
                    self.tile_map.spec_width() as int,
                    self.tile_map.spec_height() as int,
                    x as int,
                    y as int,
                );
                lemma_cell_index_fits(self.tile_map.spec_width() as int, x as int, y as int);
            }
            let idx: usize = (y as usize) * (self.tile_map.width() as usize) + (x as usize);
            if self.covered[idx].is_some() {
                v.push(Coordinates { x, y });
            }
        }
    }

    /// The coordinates adjacent to `c` that are still covered and thus
    /// eligible for flood-fill propagation: every in-bounds covered neighbor
    /// exactly once, already-revealed neighbors silently excluded.
    #[verifier::rlimit(50)]
    pub fn adjacent_covered_tiles(&self, c: Coordinates) -> (v: Vec<Coordinates>)
        requires
            self.wf(),
        ensures
            forall|i: int|
                0 <= i < v@.len() ==> self.is_covered(#[trigger] v@[i]) && is_adjacent(c, v@[i]),
            forall|d: Coordinates|
                self.is_covered(d) && is_adjacent(c, d) ==> v@.contains(d),
            forall|i: int, j: int| 0 <= i < j < v@.len() ==> v@[i] != v@[j],
    {
        broadcast use vstd::seq_lib::lemma_seq_contains_after_push;

        let mut v: Vec<Coordinates> = Vec::new();
        if c.y > 0 {
            if c.x > 0 {
                self.push_if_covered(&mut v, c.x - 1, c.y - 1);
            }
            self.push_if_covered(&mut v, c.x, c.y - 1);
            if c.x < u16::MAX {
                self.push_if_covered(&mut v, c.x + 1, c.y - 1);
            }
        }
        if c.x > 0 {
            self.push_if_covered(&mut v, c.x - 1, c.y);
        }
        if c.x < u16::MAX {
            self.push_if_covered(&mut v, c.x + 1, c.y);
        }
        if c.y < u16::MAX {
            if c.x > 0 {
                self.push_if_covered(&mut v, c.x - 1, c.y + 1);
            }
            self.push_if_covered(&mut v, c.x, c.y + 1);
            if c.x < u16::MAX {
                self.push_if_covered(&mut v, c.x + 1, c.y + 1);
            }
        }
        proof {
            assert forall|d: Coordinates| self.is_covered(d) && is_adjacent(c, d) implies
                v@.contains(d) by {
                assert(d.x as int == c.x - 1 || d.x as int == c.x as int || d.x as int == c.x
                    + 1);
                assert(d.y as int == c.y - 1 || d.y as int == c.y as int || d.y as int == c.y
                    + 1);
            }
        }
        v
    }
}

} // verus!
