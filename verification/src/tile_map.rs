//! The generated grid: bomb placement and neighbor-count derivation.
//!
//! The grid is a flat vector indexed by `y * width + x` (row-major). A map is
//! created once, before play, and read-only afterwards.

use vstd::prelude::*;

use crate::coordinates::{is_adjacent, Coordinates};
use crate::rng::GameRng;
use crate::tile::Tile;

verus! {

/// The tile of the row-major sequence `s` (of row length `w`) at column `x`,
/// row `y`.
pub open spec fn tile_of(s: Seq<Tile>, w: int, x: int, y: int) -> Tile {
    s[y * w + x]
}

/// Whether the cell (`x`, `y`) lies on the grid and holds a bomb. Positions
/// off the grid count as bomb-free, which makes the adjacency sum below a
/// plain eight-term sum for every cell.
pub open spec fn bomb_at(s: Seq<Tile>, w: int, h: int, x: int, y: int) -> bool {
    0 <= x < w && 0 <= y < h && tile_of(s, w, x, y) is Bomb
}

/// 1 when `bomb_at` holds, else 0.
pub open spec fn bomb_indicator(s: Seq<Tile>, w: int, h: int, x: int, y: int) -> int {
    if bomb_at(s, w, h, x, y) {
        1int
    } else {
        0int
    }
}

/// The brute-force count of bombs among the eight Chebyshev-adjacent cells of
/// (`x`, `y`).
pub open spec fn adjacent_bomb_count(s: Seq<Tile>, w: int, h: int, x: int, y: int) -> int {
    bomb_indicator(s, w, h, x - 1, y - 1) + bomb_indicator(s, w, h, x, y - 1) + bomb_indicator(
        s,
        w,
        h,
        x + 1,
        y - 1,
    ) + bomb_indicator(s, w, h, x - 1, y) + bomb_indicator(s, w, h, x + 1, y) + bomb_indicator(
        s,
        w,
        h,
        x - 1,
        y + 1,
    ) + bomb_indicator(s, w, h, x, y + 1) + bomb_indicator(s, w, h, x + 1, y + 1)
}

/// The tile a non-bomb cell must hold when `n` of its neighbors are bombs.
pub open spec fn graded_tile(n: int) -> Tile {
    if n == 0 {
        Tile::Empty
    } else {
        Tile::BombNeighbor(n as u8)
    }
}

/// The grading rule for one cell of the grid: a non-bomb cell holds exactly
/// the tile its brute-force adjacent-bomb count prescribes.
pub open spec fn cell_graded(s: Seq<Tile>, w: int, h: int, x: int, y: int) -> bool {
    !(tile_of(s, w, x, y) is Bomb) ==> tile_of(s, w, x, y) == graded_tile(
        adjacent_bomb_count(s, w, h, x, y),
    )
}

/// How many tiles of `s` are bombs.
pub open spec fn count_bombs(s: Seq<Tile>) -> int
    decreases s.len(),
{
    if s.len() == 0 {
        0
    } else {
        count_bombs(s.drop_last()) + if s.last() is Bomb {
            1int
        } else {
            0int
        }
    }
}

/// Whether one of the first `k` entries of `cells` equals `idx`.
spec fn contains_index_upto(cells: Seq<usize>, k: int, idx: int) -> bool {
    exists|i: int| 0 <= i < k && cells[i] == idx
}

/// Whether some entry of `cells` equals `idx`.
spec fn contains_index(cells: Seq<usize>, idx: int) -> bool {
    contains_index_upto(cells, cells.len() as int, idx)
}

proof fn lemma_count_bombs_push(s: Seq<Tile>, t: Tile)
    ensures
        count_bombs(s.push(t)) == count_bombs(s) + if t is Bomb {
            1int
        } else {
            0int
        },
{
    assert(s.push(t).drop_last() =~= s);
}

proof fn lemma_count_bombs_update(s: Seq<Tile>, i: int, t: Tile)
    requires
        0 <= i < s.len(),
    ensures
        count_bombs(s.update(i, t)) == count_bombs(s) - (if s[i] is Bomb {
            1int
        } else {
            0int
        }) + (if t is Bomb {
            1int
        } else {
            0int
        }),
    decreases s.len(),
{
    if i == s.len() - 1 {
        assert(s.update(i, t).drop_last() =~= s.drop_last());
        assert(s.update(i, t).last() == t);
    } else {
        lemma_count_bombs_update(s.drop_last(), i, t);
        assert(s.update(i, t).drop_last() =~= s.drop_last().update(i, t));
        assert(s.update(i, t).last() == s.last());
    }
}

proof fn lemma_count_bombs_pointwise(s1: Seq<Tile>, s2: Seq<Tile>)
    requires
        s1.len() == s2.len(),
        forall|i: int| 0 <= i < s1.len() ==> ((#[trigger] s1[i]) is Bomb <==> s2[i] is Bomb),
    ensures
        count_bombs(s1) == count_bombs(s2),
    decreases s1.len(),
{
    if s1.len() > 0 {
        lemma_count_bombs_pointwise(s1.drop_last(), s2.drop_last());
        assert(s1[s1.len() - 1] is Bomb <==> s2[s2.len() - 1] is Bomb);
    }
}

/// A cell within the grid has a row-major index within the area.
pub proof fn lemma_cell_index_in_range(w: int, h: int, x: int, y: int)
    requires
        0 <= x < w,
        0 <= y < h,
    ensures
        0 <= y * w + x < w * h,
{
    assert(0 <= y * w + x < w * h) by (nonlinear_arith)
        requires
            0 <= x < w,
            0 <= y < h,
    ;
}

/// Distinct in-bounds cells have distinct row-major indices.
pub proof fn lemma_cell_index_injective(w: int, x1: int, y1: int, x2: int, y2: int)
    requires
        0 <= x1 < w,
        0 <= x2 < w,
        0 <= y1,
        0 <= y2,
        y1 * w + x1 == y2 * w + x2,
    ensures
        x1 == x2 && y1 == y2,
{
    assert(x1 == x2 && y1 == y2) by (nonlinear_arith)
        requires
            0 <= x1 < w,
            0 <= x2 < w,
            0 <= y1,
            0 <= y2,
            y1 * w + x1 == y2 * w + x2,
    ;
}

/// A row-major index built from 16-bit column, row and row-length values
/// fits in a `usize` on every platform.
pub proof fn lemma_cell_index_fits(w: int, x: int, y: int)
    requires
        0 <= x <= 0xffff,
        0 <= y <= 0xffff,
        0 <= w <= 0xffff,
    ensures
        y * w + x < 0xffff_ffff,
{
    assert(y * w + x < 0xffff_ffff) by (nonlinear_arith)
        requires
            0 <= x <= 0xffff,
            0 <= y <= 0xffff,
            0 <= w <= 0xffff,
    ;
}

/// Within a grid of `w * h` cells, a cell of row `y < h` has an index below
/// the area; conversely an in-area index with column `x < w` lies on a row
/// below `h`.
proof fn lemma_row_in_range(w: int, h: int, x: int, y: int)
    requires
        w >= 1,
        0 <= x < w,
        0 <= y,
        y * w + x < w * h,
    ensures
        y < h,
{
    assert(y < h) by (nonlinear_arith)
        requires
            w >= 1,
            0 <= x < w,
            0 <= y,
            y * w + x < w * h,
    ;
}

proof fn lemma_bomb_indicator_same(s1: Seq<Tile>, s2: Seq<Tile>, w: int, h: int, x: int, y: int)
    requires
        s1.len() == s2.len(),
        s1.len() == w * h,
        forall|i: int| 0 <= i < s1.len() ==> ((#[trigger] s1[i]) is Bomb <==> s2[i] is Bomb),
    ensures
        bomb_indicator(s1, w, h, x, y) == bomb_indicator(s2, w, h, x, y),
{
    if 0 <= x < w && 0 <= y < h {
        lemma_cell_index_in_range(w, h, x, y);
        assert(s1[y * w + x] is Bomb <==> s2[y * w + x] is Bomb);
    }
}

/// Two grids whose cells agree on where the bombs are have equal
/// adjacent-bomb counts everywhere.
proof fn lemma_adjacent_count_same(s1: Seq<Tile>, s2: Seq<Tile>, w: int, h: int, x: int, y: int)
    requires
        s1.len() == s2.len(),
        s1.len() == w * h,
        forall|i: int| 0 <= i < s1.len() ==> ((#[trigger] s1[i]) is Bomb <==> s2[i] is Bomb),
    ensures
        adjacent_bomb_count(s1, w, h, x, y) == adjacent_bomb_count(s2, w, h, x, y),
{
    lemma_bomb_indicator_same(s1, s2, w, h, x - 1, y - 1);
    lemma_bomb_indicator_same(s1, s2, w, h, x, y - 1);
    lemma_bomb_indicator_same(s1, s2, w, h, x + 1, y - 1);
    lemma_bomb_indicator_same(s1, s2, w, h, x - 1, y);
    lemma_bomb_indicator_same(s1, s2, w, h, x + 1, y);
    lemma_bomb_indicator_same(s1, s2, w, h, x - 1, y + 1);
    lemma_bomb_indicator_same(s1, s2, w, h, x, y + 1);
    lemma_bomb_indicator_same(s1, s2, w, h, x + 1, y + 1);
}

/// The tile a finished grid must hold at (`x`, `y`), given the grid `s` with
/// only the bombs placed: bombs stay, every other cell is graded.
spec fn derived_tile(s: Seq<Tile>, w: int, h: int, x: int, y: int) -> Tile {
    if tile_of(s, w, x, y) is Bomb {
        Tile::Bomb
    } else {
        graded_tile(adjacent_bomb_count(s, w, h, x, y))
    }
}

/// Whether the (in-range) cell (`x`, `y`) of `tiles` holds a bomb;
/// out-of-range positions report no bomb.
fn bomb_probe(tiles: &Vec<Tile>, width: u16, height: u16, x: u16, y: u16) -> (b: bool)
    requires
        tiles@.len() == (width as int) * (height as int),
    ensures
        b == bomb_at(tiles@, width as int, height as int, x as int, y as int),
{
    if x < width && y < height {
        proof {
            lemma_cell_index_in_range(width as int, height as int, x as int, y as int);
            lemma_cell_index_fits(width as int, x as int, y as int);
        }
        let idx: usize = (y as usize) * (width as usize) + (x as usize);
        match tiles[idx] {
            Tile::Bomb => true,
            _ => false,
        }
    } else {
        false
    }
}

/// Counts the bombs on the eight cells Chebyshev-adjacent to (`x`, `y`).
fn count_adjacent_bombs(tiles: &Vec<Tile>, width: u16, height: u16, x: u16, y: u16) -> (cnt: u8)
    requires
        tiles@.len() == (width as int) * (height as int),
        x < width,
        y < height,
    ensures
        cnt as int == adjacent_bomb_count(tiles@, width as int, height as int, x as int, y as int),
{
    let mut cnt: u8 = 0;
    if y > 0 {
        if x > 0 && bomb_probe(tiles, width, height, x - 1, y - 1) {
            cnt = cnt + 1;
        }
        if bomb_probe(tiles, width, height, x, y - 1) {
            cnt = cnt + 1;
        }
        if bomb_probe(tiles, width, height, x + 1, y - 1) {
            cnt = cnt + 1;
        }
    }
    if x > 0 && bomb_probe(tiles, width, height, x - 1, y) {
        cnt = cnt + 1;
    }
    if bomb_probe(tiles, width, height, x + 1, y) {
        cnt = cnt + 1;
    }
    if x > 0 && bomb_probe(tiles, width, height, x - 1, y + 1) {
        cnt = cnt + 1;
    }
    if bomb_probe(tiles, width, height, x, y + 1) {
        cnt = cnt + 1;
    }
    if bomb_probe(tiles, width, height, x + 1, y + 1) {
        cnt = cnt + 1;
    }
    cnt
}

/// Lays out a grid of `n == width * height` tiles with bombs at exactly the
/// given distinct flat cell indices and every other cell graded by its
/// adjacent-bomb count.
fn build_tiles(width: u16, height: u16, n: usize, bomb_cells: &Vec<usize>) -> (tiles: Vec<Tile>)
    requires
        width >= 1,
        height >= 1,
        n == (width as int) * (height as int),
        forall|i: int| 0 <= i < bomb_cells@.len() ==> (#[trigger] bomb_cells@[i]) < n,
        forall|i: int, j: int|
            0 <= i < j < bomb_cells@.len() ==> bomb_cells@[i] != bomb_cells@[j],
    ensures
        tiles@.len() == n,
        count_bombs(tiles@) == bomb_cells@.len(),
        forall|x: int, y: int|
            0 <= x < width && 0 <= y < height ==> ((#[trigger] tile_of(
                tiles@,
                width as int,
                x,
                y,
            )) is Bomb <==> contains_index(bomb_cells@, y * width + x)),
        forall|x: int, y: int|
            0 <= x < width && 0 <= y < height ==> #[trigger] cell_graded(
                tiles@,
                width as int,
                height as int,
                x,
                y,
            ),
{
    let ghost w = width as int;
    let ghost h = height as int;
    // Start from an all-empty grid.
    let mut grid: Vec<Tile> = Vec::new();
    let mut i: usize = 0;
    while i < n
        invariant
            grid@.len() == i,
            i <= n,
            count_bombs(grid@) == 0,
            forall|p: int| 0 <= p < i ==> !((#[trigger] grid@[p]) is Bomb),
        decreases n - i,
    {
        proof {
            lemma_count_bombs_push(grid@, Tile::Empty);
        }
        grid.push(Tile::Empty);
        i = i + 1;
    }
    // First pass: place the bombs.
    let mut b: usize = 0;
    while b < bomb_cells.len()
        invariant
            grid@.len() == n,
            b <= bomb_cells@.len(),
            count_bombs(grid@) == b,
            forall|i: int| 0 <= i < bomb_cells@.len() ==> (#[trigger] bomb_cells@[i]) < n,
            forall|i: int, j: int|
                0 <= i < j < bomb_cells@.len() ==> bomb_cells@[i] != bomb_cells@[j],
            forall|p: int|
                0 <= p < n ==> ((#[trigger] grid@[p]) is Bomb <==> contains_index_upto(
                    bomb_cells@,
                    b as int,
                    p,
                )),
        decreases bomb_cells@.len() - b,
    {
        let p = bomb_cells[b];
        proof {
            assert(!(grid@[p as int] is Bomb)) by {
                if contains_index_upto(bomb_cells@, b as int, p as int) {
                    let j = choose|j: int| 0 <= j < b && bomb_cells@[j] == p as int;
                    assert(bomb_cells@[j] != bomb_cells@[b as int]);
                }
            }
            lemma_count_bombs_update(grid@, p as int, Tile::Bomb);
        }
        let ghost prev = grid@;
        grid.set(p, Tile::Bomb);
        proof {
            assert forall|q: int| 0 <= q < n implies ((#[trigger] grid@[q]) is Bomb
                <==> contains_index_upto(bomb_cells@, b + 1, q)) by {
                if q == p as int {
                    assert(bomb_cells@[b as int] == q);
                    assert(contains_index_upto(bomb_cells@, b + 1, q));
                } else {
                    assert(grid@[q] == prev[q]);
                    if contains_index_upto(bomb_cells@, b + 1, q) {
                        let j = choose|j: int| 0 <= j < b + 1 && bomb_cells@[j] == q;
                        assert(j != b);
                        assert(contains_index_upto(bomb_cells@, b as int, q));
                    }
                    if contains_index_upto(bomb_cells@, b as int, q) {
                        let j = choose|j: int| 0 <= j < b && bomb_cells@[j] == q;
                        assert(contains_index_upto(bomb_cells@, b + 1, q));
                    }
                }
            }
        }
        b = b + 1;
    }
    // Second pass: walk the grid in row-major order and grade each cell.
    let mut out: Vec<Tile> = Vec::new();
    let mut idx: usize = 0;
    let mut x: u16 = 0;
    let mut y: u16 = 0;
    while idx < n
        invariant
            width >= 1,
            height >= 1,
            n == w * h,
            w == width as int,
            h == height as int,
            grid@.len() == n,
            count_bombs(grid@) == bomb_cells@.len(),
            forall|p: int|
                0 <= p < n ==> ((#[trigger] grid@[p]) is Bomb <==> contains_index(
                    bomb_cells@,
                    p,
                )),
            out@.len() == idx,
            idx <= n,
            x < width,
            y <= height,
            idx == (y as int) * w + (x as int),
            forall|p: int| 0 <= p < idx ==> ((#[trigger] out@[p]) is Bomb <==> grid@[p] is Bomb),
            forall|px: int, py: int|
                0 <= px < w && 0 <= py < h && py * w + px < idx ==> out@[py * w + px]
                    == #[trigger] derived_tile(grid@, w, h, px, py),
        decreases n - idx,
    {
        proof {
            lemma_row_in_range(w, h, x as int, y as int);
        }
        let t = match grid[idx] {
            Tile::Bomb => Tile::Bomb,
            _ => {
                let cnt = count_adjacent_bombs(&grid, width, height, x, y);
                if cnt == 0 {
                    Tile::Empty
                } else {
                    Tile::BombNeighbor(cnt)
                }
            },
        };
        proof {
            assert(t == derived_tile(grid@, w, h, x as int, y as int));
        }
        let ghost prev = out@;
        out.push(t);
        proof {
            assert forall|px: int, py: int|
                0 <= px < w && 0 <= py < h && py * w + px < idx + 1 implies out@[py * w + px]
                == #[trigger] derived_tile(grid@, w, h, px, py) by {
                if py * w + px < idx {
                    assert(prev[py * w + px] == derived_tile(grid@, w, h, px, py));
                } else {
                    lemma_cell_index_injective(w, px, py, x as int, y as int);
                }
            }
        }
        idx = idx + 1;
        x = x + 1;
        if x == width {
            proof {
                assert((y as int + 1) * w == (y as int) * w + w) by (nonlinear_arith);
            }
            x = 0;
            y = y + 1;
        }
    }
    proof {
        assert forall|px: int, py: int| 0 <= px < w && 0 <= py < h implies ((#[trigger] tile_of(
            out@,
            w,
            px,
            py,
        )) is Bomb <==> contains_index(bomb_cells@, py * w + px)) by {
            lemma_cell_index_in_range(w, h, px, py);
        }
        lemma_count_bombs_pointwise(out@, grid@);
        assert forall|px: int, py: int| 0 <= px < w && 0 <= py < h implies #[trigger] cell_graded(
            out@,
            w,
            h,
            px,
            py,
        ) by {
            lemma_cell_index_in_range(w, h, px, py);
            assert(out@[py * w + px] == derived_tile(grid@, w, h, px, py));
            lemma_adjacent_count_same(grid@, out@, w, h, px, py);
        }
    }
    out
}

/// Draws `k` distinct cell indices below `n`, uniformly for a fair source:
/// a partial Fisher-Yates shuffle of the index pool, keeping the first `k`.
fn sample_distinct_cells(n: usize, k: usize, seed: u64) -> (cells: Vec<usize>)
    requires
        1 <= n,
        k <= n,
    ensures
        cells@.len() == k,
        forall|i: int| 0 <= i < k ==> (#[trigger] cells@[i]) < n,
        forall|i: int, j: int| 0 <= i < j < k ==> cells@[i] != cells@[j],
{
    let mut pool: Vec<usize> = Vec::new();
    let mut i: usize = 0;
    while i < n
        invariant
            pool@.len() == i,
            i <= n,
            forall|p: int| 0 <= p < i ==> (#[trigger] pool@[p]) == p,
        decreases n - i,
    {
        pool.push(i);
        i = i + 1;
    }
    let mut rng = GameRng::new(seed);
    let mut s: usize = 0;
    while s < k
        invariant
            k <= n,
            pool@.len() == n,
            s <= k,
            forall|p: int| 0 <= p < n ==> (#[trigger] pool@[p]) < n,
            forall|p: int, q: int| 0 <= p < q < n ==> pool@[p] != pool@[q],
        decreases k - s,
    {
        let r = rng.next_below(n - s);
        let j = s + r;
        let first = pool[s];
        let other = pool[j];
        pool.set(s, other);
        pool.set(j, first);
        s = s + 1;
    }
    pool.truncate(k);
    pool
}

impl TileMap {
    /// Generates a map of the given dimensions: `min(bomb_count, area)`
    /// bombs are placed at distinct cells drawn from the seeded source, and
    /// every other cell is graded by the brute-force count of its adjacent
    /// bombs (`Empty` exactly when that count is zero). Equal inputs yield
    /// equal maps.
    pub fn generate(width: u16, height: u16, bomb_count: u16, seed: u64) -> (tm: TileMap)
        requires
            width >= 1,
            height >= 1,
        ensures
            tm.wf(),
            tm.spec_width() == width,
            tm.spec_height() == height,
            tm.spec_bomb_count() == bomb_count,
    {
        proof {
            lemma_cell_index_fits(width as int, 0, height as int);
            assert((width as int) * (height as int) == (height as int) * (width as int))
                by (nonlinear_arith);
            assert((width as int) * (height as int) >= 1) by (nonlinear_arith)
                requires
                    width >= 1,
                    height >= 1,
            ;
        }
        let n: usize = (width as usize) * (height as usize);
        let k: usize = if (bomb_count as usize) < n {
            bomb_count as usize
        } else {
            n
        };
        let cells = sample_distinct_cells(n, k, seed);
        let tiles = build_tiles(width, height, n, &cells);
        TileMap { width, height, bomb_count, tiles }
    }

    /// Builds a map with bombs at exactly the given distinct in-bounds
    /// coordinates, grading every other cell by its adjacent-bomb count.
    pub fn from_bomb_cells(width: u16, height: u16, bombs: &Vec<Coordinates>) -> (tm: TileMap)
        requires
            width >= 1,
            height >= 1,
            bombs@.len() <= width * height,
            bombs@.len() <= u16::MAX,
            forall|i: int|
                0 <= i < bombs@.len() ==> (#[trigger] bombs@[i]).x < width && bombs@[i].y
                    < height,
            forall|i: int, j: int| 0 <= i < j < bombs@.len() ==> bombs@[i] != bombs@[j],
        ensures
            tm.wf(),
            tm.spec_width() == width,
            tm.spec_height() == height,
            tm.spec_bomb_count() == bombs@.len(),
            forall|c: Coordinates|
                tm.in_bounds(c) ==> ((#[trigger] tm.spec_tile(c)) is Bomb <==> bombs@.contains(
                    c,
                )),
    {
        let ghost w = width as int;
        let ghost h = height as int;
        proof {
            lemma_cell_index_fits(w, 0, h);
            assert(w * h == h * w) by (nonlinear_arith);
        }
        let n: usize = (width as usize) * (height as usize);
        let mut cells: Vec<usize> = Vec::new();
        let mut i: usize = 0;
        while i < bombs.len()
            invariant
                w == width as int,
                h == height as int,
                cells@.len() == i,
                i <= bombs@.len(),
                forall|p: int|
                    0 <= p < bombs@.len() ==> (#[trigger] bombs@[p]).x < width && bombs@[p].y
                        < height,
                forall|p: int|
                    0 <= p < i ==> (#[trigger] cells@[p]) == (bombs@[p].y as int) * w + (
                    bombs@[p].x as int),
            decreases bombs@.len() - i,
        {
            let c = bombs[i];
            proof {
                lemma_cell_index_fits(w, c.x as int, c.y as int);
            }
            cells.push((c.y as usize) * (width as usize) + (c.x as usize));
            i = i + 1;
        }
        proof {
            assert forall|p: int| 0 <= p < cells@.len() implies (#[trigger] cells@[p]) < n by {
                lemma_cell_index_in_range(w, h, bombs@[p].x as int, bombs@[p].y as int);
            }
            assert forall|p: int, q: int| 0 <= p < q < cells@.len() implies cells@[p]
                != cells@[q] by {
                assert(bombs@[p] != bombs@[q]);
                if cells@[p] == cells@[q] {
                    lemma_cell_index_injective(
                        w,
                        bombs@[p].x as int,
                        bombs@[p].y as int,
                        bombs@[q].x as int,
                        bombs@[q].y as int,
                    );
                }
            }
        }
        let tiles = build_tiles(width, height, n, &cells);
        let count = bombs.len() as u16;
        let tm = TileMap { width, height, bomb_count: count, tiles };
        proof {
            assert forall|c: Coordinates| tm.in_bounds(c) implies ((#[trigger] tm.spec_tile(
                c,
            )) is Bomb <==> bombs@.contains(c)) by {
                let idx = (c.y as int) * w + (c.x as int);
                if contains_index(cells@, idx) {
                    let j = choose|j: int| 0 <= j < cells@.len() && cells@[j] == idx;
                    lemma_cell_index_injective(
                        w,
                        bombs@[j].x as int,
                        bombs@[j].y as int,
                        c.x as int,
                        c.y as int,
                    );
                    assert(bombs@[j] == c);
                }
                if bombs@.contains(c) {
                    let j = choose|j: int| 0 <= j < bombs@.len() && bombs@[j] == c;
                    assert(cells@[j] == idx);
                    assert(contains_index(cells@, idx));
                }
            }
        }
        tm
    }
}

/// A rectangular grid of tiles, plus the bomb count it was generated from.
pub struct TileMap {
    width: u16,
    height: u16,
    bomb_count: u16,
    tiles: Vec<Tile>,
}

impl TileMap {
    /// The number of columns.
    pub closed spec fn spec_width(&self) -> u16 {
        self.width
    }

    /// The number of rows.
    pub closed spec fn spec_height(&self) -> u16 {
        self.height
    }

    /// The bomb count the map was generated from (before clamping).
    pub closed spec fn spec_bomb_count(&self) -> u16 {
        self.bomb_count
    }

    /// The tiles in row-major order.
    pub closed spec fn tiles_seq(&self) -> Seq<Tile> {
        self.tiles@
    }

    /// The number of cells.
    pub open spec fn area(&self) -> int {
        self.spec_width() * self.spec_height()
    }

    /// How many bombs the map actually holds: the requested count, clamped to
    /// the number of cells.
    pub open spec fn bombs_placed(&self) -> int {
        if self.spec_bomb_count() < self.area() {
            self.spec_bomb_count() as int
        } else {
            self.area()
        }
    }

    /// Whether a coordinate lies on the grid.
    pub open spec fn in_bounds(&self, c: Coordinates) -> bool {
        c.x < self.spec_width() && c.y < self.spec_height()
    }

    /// The tile at a coordinate.
    pub open spec fn spec_tile(&self, c: Coordinates) -> Tile {
        tile_of(self.tiles_seq(), self.spec_width() as int, c.x as int, c.y as int)
    }

    /// Well-formedness: positive dimensions, one tile per cell, exactly the
    /// clamped number of bombs, and every non-bomb cell graded by the
    /// brute-force count of its adjacent bombs (`Empty` exactly when that
    /// count is zero).
    pub open spec fn wf(&self) -> bool {
        &&& self.spec_width() >= 1
        &&& self.spec_height() >= 1
        &&& self.tiles_seq().len() == self.area()
        &&& count_bombs(self.tiles_seq()) == self.bombs_placed()
        &&& forall|x: int, y: int|
            0 <= x < self.spec_width() && 0 <= y < self.spec_height() ==> #[trigger] cell_graded(
                self.tiles_seq(),
                self.spec_width() as int,
                self.spec_height() as int,
                x,
                y,
            )
    }

    /// The number of columns.
    #[verifier::when_used_as_spec(spec_width)]
    pub fn width(&self) -> (w: u16)
        ensures
            w == self.spec_width(),
    {
        self.width
    }

    /// The number of rows.
    #[verifier::when_used_as_spec(spec_height)]
    pub fn height(&self) -> (h: u16)
        ensures
            h == self.spec_height(),
    {
        self.height
    }

    /// The bomb count the map was generated from.
    #[verifier::when_used_as_spec(spec_bomb_count)]
    pub fn bomb_count(&self) -> (n: u16)
        ensures
            n == self.spec_bomb_count(),
    {
        self.bomb_count
    }

    /// The tile at an in-bounds coordinate.
    pub fn tile(&self, c: Coordinates) -> (t: Tile)
        requires
            self.wf(),
            self.in_bounds(c),
        ensures
            t == self.spec_tile(c),
    {
        proof {
            lemma_cell_index_in_range(
                self.spec_width() as int,
                self.spec_height() as int,
                c.x as int,
                c.y as int,
            );
            lemma_cell_index_fits(self.spec_width() as int, c.x as int, c.y as int);
        }
        let idx: usize = (c.y as usize) * (self.width as usize) + (c.x as usize);
        self.tiles[idx]
    }

    /// Scans the grid in row-major order (`y` ascending, then `x`) and
    /// selects the first coordinate whose tile is `Empty`, the seed of the
    /// guaranteed-safe first reveal. Yields nothing when no `Empty` tile
    /// exists (for instance when every cell is a bomb).
    pub fn safe_start_coordinate(&self) -> (r: Option<Coordinates>)
        requires
            self.wf(),
        ensures
            match r {
                Some(c) => {
                    &&& self.in_bounds(c)
                    &&& self.spec_tile(c) is Empty
                    &&& forall|px: int, py: int|
                        0 <= px < self.spec_width() && 0 <= py < self.spec_height() && py
                            * self.spec_width() + px < c.y * self.spec_width() + c.x ==> !((
                        #[trigger] tile_of(
                            self.tiles_seq(),
                            self.spec_width() as int,
                            px,
                            py,
                        )) is Empty)
                },
                None => forall|px: int, py: int|
                    0 <= px < self.spec_width() && 0 <= py < self.spec_height() ==> !((
                    #[trigger] tile_of(self.tiles_seq(), self.spec_width() as int, px, py)) is Empty),
            },
    {
        let ghost w = self.spec_width() as int;
        let ghost h = self.spec_height() as int;
        proof {
            lemma_cell_index_fits(w, 0, h);
            assert(w * h == h * w) by (nonlinear_arith);
        }
        let n: usize = (self.width as usize) * (self.height as usize);
        let mut idx: usize = 0;
        let mut x: u16 = 0;
        let mut y: u16 = 0;
        while idx < n
            invariant
                self.wf(),
                w == self.spec_width() as int,
                h == self.spec_height() as int,
                n == w * h,
                idx <= n,
                x < self.spec_width(),
                y <= self.spec_height(),
                idx == (y as int) * w + (x as int),
                forall|px: int, py: int|
                    0 <= px < w && 0 <= py < h && py * w + px < idx ==> !((#[trigger] tile_of(
                        self.tiles_seq(),
                        w,
                        px,
                        py,
                    )) is Empty),
            decreases n - idx,
        {
            proof {
                lemma_row_in_range(w, h, x as int, y as int);
            }
            let c = Coordinates { x, y };
            match self.tile(c) {
                Tile::Empty => {
                    return Some(c);
                },
                _ => {},
            }
            proof {
                assert forall|px: int, py: int|
                    0 <= px < w && 0 <= py < h && py * w + px < idx + 1 implies !((
                #[trigger] tile_of(self.tiles_seq(), w, px, py)) is Empty) by {
                    if py * w + px == idx {
                        lemma_cell_index_injective(w, px, py, x as int, y as int);
                    }
                }
            }
            idx = idx + 1;
            x = x + 1;
            if x == self.width {
                proof {
                    assert((y as int + 1) * w == (y as int) * w + w) by (nonlinear_arith);
                }
                x = 0;
                y = y + 1;
            }
        }
        proof {
            assert forall|px: int, py: int| 0 <= px < w && 0 <= py < h implies !((
            #[trigger] tile_of(self.tiles_seq(), w, px, py)) is Empty) by {
                lemma_cell_index_in_range(w, h, px, py);
            }
        }
        None
    }

    /// The tiles as rows in row-major order (`y` ascending, each row `x`
    /// ascending), for a renderer to lay out once at board spawn.
    pub fn rows(&self) -> (rows: Vec<Vec<Tile>>)
        requires
            self.wf(),
        ensures
            rows@.len() == self.spec_height(),
            forall|py: int|
                0 <= py < self.spec_height() ==> (#[trigger] rows@[py])@.len()
                    == self.spec_width(),
            forall|px: int, py: int|
                0 <= px < self.spec_width() && 0 <= py < self.spec_height() ==> rows@[py]@[px]
                    == #[trigger] tile_of(self.tiles_seq(), self.spec_width() as int, px, py),
    {
        let ghost w = self.spec_width() as int;
        let ghost h = self.spec_height() as int;
        let mut rows: Vec<Vec<Tile>> = Vec::new();
        let mut y: u16 = 0;
        while y < self.height
            invariant
                self.wf(),
                w == self.spec_width() as int,
                h == self.spec_height() as int,
                rows@.len() == y,
                y <= self.spec_height(),
                forall|py: int| 0 <= py < y ==> (#[trigger] rows@[py])@.len() == w,
                forall|px: int, py: int|
                    0 <= px < w && 0 <= py < y ==> rows@[py]@[px] == #[trigger] tile_of(
                        self.tiles_seq(),
                        w,
                        px,
                        py,
                    ),
            decreases self.spec_height() - y,
        {
            let mut row: Vec<Tile> = Vec::new();
            let mut x: u16 = 0;
            while x < self.width
                invariant
                    self.wf(),
                    w == self.spec_width() as int,
                    y < self.spec_height(),
                    row@.len() == x,
                    x <= self.spec_width(),
                    forall|px: int|
                        0 <= px < x ==> row@[px] == #[trigger] tile_of(
                            self.tiles_seq(),
                            w,
                            px,
                            y as int,
                        ),
                decreases self.spec_width() - x,
            {
                row.push(self.tile(Coordinates { x, y }));
                x = x + 1;
            }
            rows.push(row);
            y = y + 1;
        }
        rows
    }

    /// The tile at a coordinate, or nothing when the coordinate lies off the
    /// grid.
    pub fn tile_at(&self, c: Coordinates) -> (r: Option<Tile>)
        requires
            self.wf(),
        ensures
            r == if self.in_bounds(c) {
                Some(self.spec_tile(c))
            } else {
                None::<Tile>
            },
    {
        if c.x < self.width && c.y < self.height {
            Some(self.tile(c))
        } else {
            None
        }
    }
}

/// In a well-formed map no `Empty` tile is adjacent to a bomb: an `Empty`
/// tile is one whose adjacent-bomb count is zero, so flood-fill propagation
/// through `Empty` tiles can never step onto a bomb.
pub proof fn lemma_empty_tile_has_no_adjacent_bomb(tm: TileMap, a: Coordinates, b: Coordinates)
    requires
        tm.wf(),
        tm.in_bounds(a),
        tm.spec_tile(a) is Empty,
        tm.in_bounds(b),
        is_adjacent(a, b),
    ensures
        !(tm.spec_tile(b) is Bomb),
{
    let s = tm.tiles_seq();
    let w = tm.spec_width() as int;
    let h = tm.spec_height() as int;
    let ax = a.x as int;
    let ay = a.y as int;
    assert(cell_graded(s, w, h, ax, ay));
    assert(adjacent_bomb_count(s, w, h, ax, ay) == 0);
    assert(bomb_indicator(s, w, h, ax - 1, ay - 1) == 0);
    assert(bomb_indicator(s, w, h, ax, ay - 1) == 0);
    assert(bomb_indicator(s, w, h, ax + 1, ay - 1) == 0);
    assert(bomb_indicator(s, w, h, ax - 1, ay) == 0);
    assert(bomb_indicator(s, w, h, ax + 1, ay) == 0);
    assert(bomb_indicator(s, w, h, ax - 1, ay + 1) == 0);
    assert(bomb_indicator(s, w, h, ax, ay + 1) == 0);
    assert(bomb_indicator(s, w, h, ax + 1, ay + 1) == 0);
    assert(!bomb_at(s, w, h, b.x as int, b.y as int));
}

} // verus!
