//! The tick-scoped reveal engine: drain a pending set, uncover each
//! referenced position, and schedule the covered neighbors of freshly
//! revealed `Empty` tiles for the next tick.
//!
//! Propagation advances one adjacency ring per tick, so a large empty region
//! is revealed breadth-first over several ticks. A coordinate moves from
//! covered to pending to revealed and never back, which bounds the whole
//! process by the size of the grid.

use vstd::prelude::*;

use crate::board::{lemma_covered_count_in_range, Board};
use crate::coordinates::{is_adjacent, Coordinates};
use crate::tile::Tile;

verus! {

/// Whether one of the first `k` entries of `s` equals `c`.
spec fn appears_upto(s: Seq<Coordinates>, k: int, c: Coordinates) -> bool {
    exists|j: int| 0 <= j < k && s[j] == c
}

/// Whether one of the first `k` pending entries is a covered bomb tile of
/// `b`: processing it loses the game.
pub open spec fn hits_bomb_upto(b: Board, s: Seq<Coordinates>, k: int) -> bool {
    exists|j: int|
        0 <= j < k && b.is_covered(#[trigger] s[j]) && b.spec_tile_map().spec_tile(s[j]) is Bomb
}

/// Whether some pending entry is a covered bomb tile of `b`.
pub open spec fn hits_bomb(b: Board, s: Seq<Coordinates>) -> bool {
    hits_bomb_upto(b, s, s.len() as int)
}

/// Whether `d` is adjacent to one of the first `k` pending entries that is a
/// covered `Empty` tile of `b`: revealing that entry propagates to `d`.
pub open spec fn empty_frontier_upto(b: Board, s: Seq<Coordinates>, k: int, d: Coordinates) -> bool {
    exists|j: int|
        0 <= j < k && b.is_covered(#[trigger] s[j]) && b.spec_tile_map().spec_tile(s[j]) is Empty
            && is_adjacent(s[j], d)
}

/// Whether `d` is adjacent to some pending entry that is a covered `Empty`
/// tile of `b`.
pub open spec fn empty_frontier(b: Board, s: Seq<Coordinates>, d: Coordinates) -> bool {
    empty_frontier_upto(b, s, s.len() as int, d)
}

proof fn lemma_appears_upto_step(s: Seq<Coordinates>, k: int, c: Coordinates)
    requires
        0 <= k < s.len(),
    ensures
        appears_upto(s, k + 1, c) <==> (appears_upto(s, k, c) || s[k] == c),
{
    if appears_upto(s, k + 1, c) {
        let j = choose|j: int| 0 <= j < k + 1 && s[j] == c;
        if j < k {
            assert(appears_upto(s, k, c));
        }
    }
    if appears_upto(s, k, c) {
        let j = choose|j: int| 0 <= j < k && s[j] == c;
        assert(0 <= j < k + 1 && s[j] == c);
        assert(appears_upto(s, k + 1, c));
    }
    if s[k] == c {
        assert(appears_upto(s, k + 1, c));
    }
}

proof fn lemma_appears_is_contains(s: Seq<Coordinates>, c: Coordinates)
    ensures
        appears_upto(s, s.len() as int, c) <==> s.contains(c),
{
    if appears_upto(s, s.len() as int, c) {
        let j = choose|j: int| 0 <= j < s.len() && s[j] == c;
        assert(s[j] == c);
    }
    if s.contains(c) {
        let j = choose|j: int| 0 <= j < s.len() && s[j] == c;
        assert(appears_upto(s, s.len() as int, c));
    }
}

proof fn lemma_hits_bomb_step(b: Board, s: Seq<Coordinates>, k: int)
    requires
        0 <= k < s.len(),
    ensures
        hits_bomb_upto(b, s, k + 1) <==> (hits_bomb_upto(b, s, k) || (b.is_covered(s[k])
            && b.spec_tile_map().spec_tile(s[k]) is Bomb)),
{
    if hits_bomb_upto(b, s, k + 1) {
        let j = choose|j: int|
            0 <= j < k + 1 && b.is_covered(s[j]) && b.spec_tile_map().spec_tile(s[j]) is Bomb;
        if j < k {
            assert(hits_bomb_upto(b, s, k));
        }
    }
    if hits_bomb_upto(b, s, k) {
        let j = choose|j: int|
            0 <= j < k && b.is_covered(s[j]) && b.spec_tile_map().spec_tile(s[j]) is Bomb;
        assert(0 <= j < k + 1 && b.is_covered(s[j]) && b.spec_tile_map().spec_tile(s[j]) is Bomb);
        assert(hits_bomb_upto(b, s, k + 1));
    }
    if b.is_covered(s[k]) && b.spec_tile_map().spec_tile(s[k]) is Bomb {
        assert(hits_bomb_upto(b, s, k + 1));
    }
}

proof fn lemma_frontier_step(b: Board, s: Seq<Coordinates>, k: int, d: Coordinates)
    requires
        0 <= k < s.len(),
    ensures
        empty_frontier_upto(b, s, k + 1, d) <==> (empty_frontier_upto(b, s, k, d) || (
        b.is_covered(s[k]) && b.spec_tile_map().spec_tile(s[k]) is Empty && is_adjacent(s[k], d))),
{
    if empty_frontier_upto(b, s, k + 1, d) {
        let j = choose|j: int|
            0 <= j < k + 1 && b.is_covered(s[j]) && b.spec_tile_map().spec_tile(s[j]) is Empty
                && is_adjacent(s[j], d);
        if j < k {
            assert(empty_frontier_upto(b, s, k, d));
        }
    }
    if empty_frontier_upto(b, s, k, d) {
        let j = choose|j: int|
            0 <= j < k && b.is_covered(s[j]) && b.spec_tile_map().spec_tile(s[j]) is Empty
                && is_adjacent(s[j], d);
        assert(0 <= j < k + 1 && b.is_covered(s[j]) && b.spec_tile_map().spec_tile(
            s[j],
        ) is Empty && is_adjacent(s[j], d));
        assert(empty_frontier_upto(b, s, k + 1, d));
    }
    if b.is_covered(s[k]) && b.spec_tile_map().spec_tile(s[k]) is Empty && is_adjacent(s[k], d) {
        assert(empty_frontier_upto(b, s, k + 1, d));
    }
}

/// What one tick produced: the cover handles freed for the renderer to
/// dispose, the coordinates scheduled for the next tick, and whether a bomb
/// was revealed (the loss signal for the game-state collaborator).
pub struct TickOutcome {
    /// Each uncovered coordinate with the handle its cover was registered
    /// under, one entry per newly revealed tile.
    pub freed: Vec<(Coordinates, u64)>,
    /// The covered neighbors of the `Empty` tiles revealed this tick, to be
    /// processed on the next tick.
    pub next_pending: Vec<Coordinates>,
    /// Whether a revealed tile was a bomb.
    pub bomb_revealed: bool,
}

/// Processes one tick: uncovers every pending coordinate (duplicate or stale
/// requests are silent no-ops), reports a revealed bomb, and schedules the
/// still-covered neighbors of each revealed `Empty` tile for the next tick.
pub fn process_tick(board: &mut Board, pending: &Vec<Coordinates>) -> (out: TickOutcome)
    requires
        old(board).wf(),
    ensures
        final(board).wf(),
        final(board).spec_tile_map() == old(board).spec_tile_map(),
        forall|c: Coordinates|
            #[trigger] final(board).is_covered(c) <==> (old(board).is_covered(c)
                && !pending@.contains(c)),
        forall|c: Coordinates|
            final(board).is_covered(c) ==> #[trigger] final(board).handle_of(c) == old(
                board,
            ).handle_of(c),
        forall|k: int|
            0 <= k < out.freed@.len() ==> pending@.contains((#[trigger] out.freed@[k]).0) && old(
                board,
            ).is_covered(out.freed@[k].0) && out.freed@[k].1 == old(board).handle_of(
                out.freed@[k].0,
            ),
        forall|c: Coordinates|
            #[trigger] pending@.contains(c) && old(board).is_covered(c) ==> out.freed@.contains(
                (c, old(board).handle_of(c)),
            ),
        forall|k: int, l: int|
            0 <= k < l < out.freed@.len() ==> (#[trigger] out.freed@[k]).0 != (
            #[trigger] out.freed@[l]).0,
        out.bomb_revealed == hits_bomb(*old(board), pending@),
        forall|k: int|
            0 <= k < out.next_pending@.len() ==> old(board).is_covered(
                #[trigger] out.next_pending@[k],
            ) && empty_frontier(*old(board), pending@, out.next_pending@[k]),
        forall|d: Coordinates|
            old(board).is_covered(d) && !pending@.contains(d) && #[trigger] empty_frontier(
                *old(board),
                pending@,
                d,
            ) ==> out.next_pending@.contains(d),
        final(board).covered_count() <= old(board).covered_count(),
        out.next_pending@.len() > 0 ==> final(board).covered_count() < old(
            board,
        ).covered_count(),
{
    broadcast use vstd::seq_lib::lemma_seq_contains_after_push;

    let ghost b0 = *old(board);
    let ghost ps = pending@;
    let mut freed: Vec<(Coordinates, u64)> = Vec::new();
    let mut next_pending: Vec<Coordinates> = Vec::new();
    let mut bomb_revealed: bool = false;
    let mut i: usize = 0;
    while i < pending.len()
        invariant
            board.wf(),
            b0.wf(),
            board.spec_tile_map() == b0.spec_tile_map(),
            ps == pending@,
            i <= ps.len(),
            forall|c: Coordinates|
                #[trigger] board.is_covered(c) <==> (b0.is_covered(c) && !appears_upto(
                    ps,
                    i as int,
                    c,
                )),
            forall|c: Coordinates|
                board.is_covered(c) ==> #[trigger] board.handle_of(c) == b0.handle_of(c),
            forall|k: int|
                0 <= k < freed@.len() ==> appears_upto(ps, i as int, (#[trigger] freed@[k]).0)
                    && b0.is_covered(freed@[k].0) && freed@[k].1 == b0.handle_of(freed@[k].0),
            forall|c: Coordinates|
                #[trigger] appears_upto(ps, i as int, c) && b0.is_covered(c) ==> freed@.contains(
                    (c, b0.handle_of(c)),
                ),
            forall|k: int, l: int|
                0 <= k < l < freed@.len() ==> (#[trigger] freed@[k]).0 != (
                #[trigger] freed@[l]).0,
            bomb_revealed == hits_bomb_upto(b0, ps, i as int),
            forall|k: int|
                0 <= k < next_pending@.len() ==> b0.is_covered(#[trigger] next_pending@[k])
                    && empty_frontier_upto(b0, ps, i as int, next_pending@[k]),
            forall|d: Coordinates|
                b0.is_covered(d) && !appears_upto(ps, i as int, d) && #[trigger]
                empty_frontier_upto(b0, ps, i as int, d) ==> next_pending@.contains(d),
            board.covered_count() <= b0.covered_count(),
            next_pending@.len() > 0 ==> board.covered_count() < b0.covered_count(),
        decreases ps.len() - i,
    {
        let c = pending[i];
        let ghost mid_pre = *board;
        let r = board.try_uncover_tile(&c);
        proof {
            // After this uncover the board is the start-of-tick board with
            // the first i + 1 pending coordinates removed.
            assert forall|d: Coordinates| #[trigger] board.is_covered(d) <==> (b0.is_covered(d)
                && !appears_upto(ps, i + 1, d)) by {
                lemma_appears_upto_step(ps, i as int, d);
            }
        }
        match r {
            Some(handle) => {
                proof {
                    assert(mid_pre.is_covered(c));
                    assert(b0.is_covered(c) && !appears_upto(ps, i as int, c));
                    assert(handle == b0.handle_of(c));
                    assert forall|k: int| 0 <= k < freed@.len() implies (#[trigger] freed@[k]).0
                        != c by {
                        if freed@[k].0 == c {
                            assert(appears_upto(ps, i as int, c));
                        }
                    }
                }
                let ghost old_freed = freed@;
                freed.push((c, handle));
                proof {
                    assert(freed@[freed@.len() - 1] == (c, b0.handle_of(c)));
                    assert forall|d: Coordinates| #[trigger] appears_upto(ps, i + 1, d)
                        && b0.is_covered(d) implies freed@.contains((d, b0.handle_of(d))) by {
                        lemma_appears_upto_step(ps, i as int, d);
                        if d == c {
                            assert(freed@.contains((c, b0.handle_of(c))));
                        } else {
                            assert(appears_upto(ps, i as int, d));
                            assert(old_freed.contains((d, b0.handle_of(d))));
                            vstd::seq_lib::lemma_seq_contains_after_push(
                                old_freed,
                                (c, handle),
                                (d, b0.handle_of(d)),
                            );
                        }
                    }
                    assert forall|k: int| 0 <= k < freed@.len() implies appears_upto(
                        ps,
                        i + 1,
                        (#[trigger] freed@[k]).0,
                    ) && b0.is_covered(freed@[k].0) && freed@[k].1 == b0.handle_of(
                        freed@[k].0,
                    ) by {
                        lemma_appears_upto_step(ps, i as int, freed@[k].0);
                        if k < freed@.len() - 1 {
                        } else {
                            assert(freed@[k] == (c, b0.handle_of(c)));
                        }
                    }
                }
                let t = board.tile_map().tile(c);
                proof {
                    lemma_hits_bomb_step(b0, ps, i as int);
                }
                match t {
                    Tile::Bomb => {
                        bomb_revealed = true;
                        proof {
                            assert forall|d: Coordinates| b0.is_covered(d) && !appears_upto(
                                ps,
                                i + 1,
                                d,
                            ) && #[trigger] empty_frontier_upto(b0, ps, i + 1, d) implies
                                next_pending@.contains(d) by {
                                lemma_frontier_step(b0, ps, i as int, d);
                                lemma_appears_upto_step(ps, i as int, d);
                            }
                            assert forall|k: int| 0 <= k < next_pending@.len() implies
                                b0.is_covered(#[trigger] next_pending@[k]) && empty_frontier_upto(
                                b0,
                                ps,
                                i + 1,
                                next_pending@[k],
                            ) by {
                                lemma_frontier_step(b0, ps, i as int, next_pending@[k]);
                            }
                        }
                    },
                    Tile::Empty => {
                        let mut nbrs = board.adjacent_covered_tiles(c);
                        let ghost nb = nbrs@;
                        let ghost old_next = next_pending@;
                        next_pending.append(&mut nbrs);
                        proof {
                            assert(next_pending@ == old_next + nb);
                            assert forall|k: int| 0 <= k < next_pending@.len() implies
                                b0.is_covered(#[trigger] next_pending@[k]) && empty_frontier_upto(
                                b0,
                                ps,
                                i + 1,
                                next_pending@[k],
                            ) by {
                                lemma_frontier_step(b0, ps, i as int, next_pending@[k]);
                                if k < old_next.len() {
                                    assert(next_pending@[k] == old_next[k]);
                                } else {
                                    let d = nb[k - old_next.len()];
                                    assert(next_pending@[k] == d);
                                    assert(board.is_covered(d) && is_adjacent(c, d));
                                    assert(b0.is_covered(d));
                                    assert(b0.spec_tile_map().spec_tile(c) is Empty);
                                    assert(ps[i as int] == c);
                                }
                            }
                            assert forall|d: Coordinates| b0.is_covered(d) && !appears_upto(
                                ps,
                                i + 1,
                                d,
                            ) && #[trigger] empty_frontier_upto(b0, ps, i + 1, d) implies
                                next_pending@.contains(d) by {
                                lemma_frontier_step(b0, ps, i as int, d);
                                lemma_appears_upto_step(ps, i as int, d);
                                if empty_frontier_upto(b0, ps, i as int, d) {
                                    assert(old_next.contains(d));
                                    let j = choose|j: int|
                                        0 <= j < old_next.len() && old_next[j] == d;
                                    assert(next_pending@[j] == d);
                                    assert(next_pending@.contains(d));
                                } else {
                                    // the new frontier entry is c itself
                                    assert(board.is_covered(d) && is_adjacent(c, d));
                                    assert(nb.contains(d));
                                    let j = choose|j: int| 0 <= j < nb.len() && nb[j] == d;
                                    assert(next_pending@[old_next.len() + j] == d);
                                    assert(next_pending@.contains(d));
                                }
                            }
                            if next_pending@.len() > 0 {
                                assert(board.covered_count() < b0.covered_count());
                            }
                        }
                    },
                    Tile::BombNeighbor(_) => {
                        proof {
                            assert forall|d: Coordinates| b0.is_covered(d) && !appears_upto(
                                ps,
                                i + 1,
                                d,
                            ) && #[trigger] empty_frontier_upto(b0, ps, i + 1, d) implies
                                next_pending@.contains(d) by {
                                lemma_frontier_step(b0, ps, i as int, d);
                                lemma_appears_upto_step(ps, i as int, d);
                            }
                            assert forall|k: int| 0 <= k < next_pending@.len() implies
                                b0.is_covered(#[trigger] next_pending@[k]) && empty_frontier_upto(
                                b0,
                                ps,
                                i + 1,
                                next_pending@[k],
                            ) by {
                                lemma_frontier_step(b0, ps, i as int, next_pending@[k]);
                            }
                        }
                    },
                }
            },
            None => {
                proof {
                    assert(!mid_pre.is_covered(c));
                    lemma_hits_bomb_step(b0, ps, i as int);
                    if b0.is_covered(c) {
                        assert(appears_upto(ps, i as int, c));
                    }
                    if b0.is_covered(c) && b0.spec_tile_map().spec_tile(c) is Bomb {
                        assert(hits_bomb_upto(b0, ps, i as int));
                    }
                    assert forall|d: Coordinates| #[trigger] appears_upto(ps, i + 1, d)
                        && b0.is_covered(d) implies freed@.contains((d, b0.handle_of(d))) by {
                        lemma_appears_upto_step(ps, i as int, d);
                    }
                    assert forall|k: int| 0 <= k < freed@.len() implies appears_upto(
                        ps,
                        i + 1,
                        (#[trigger] freed@[k]).0,
                    ) && b0.is_covered(freed@[k].0) && freed@[k].1 == b0.handle_of(
                        freed@[k].0,
                    ) by {
                        lemma_appears_upto_step(ps, i as int, freed@[k].0);
                    }
                    assert forall|d: Coordinates| b0.is_covered(d) && !appears_upto(ps, i + 1, d)
                        && #[trigger] empty_frontier_upto(b0, ps, i + 1, d) implies
                        next_pending@.contains(d) by {
                        lemma_frontier_step(b0, ps, i as int, d);
                        lemma_appears_upto_step(ps, i as int, d);
                        if !empty_frontier_upto(b0, ps, i as int, d) {
                            // the frontier entry is ps[i], already processed
                            // at its first occurrence
                            assert(b0.is_covered(c));
                            assert(appears_upto(ps, i as int, c));
                            let j = choose|j: int| 0 <= j < i && ps[j] == c;
                            assert(b0.is_covered(ps[j]) && b0.spec_tile_map().spec_tile(
                                ps[j],
                            ) is Empty && is_adjacent(ps[j], d));
                            assert(empty_frontier_upto(b0, ps, i as int, d));
                        }
                    }
                    assert forall|k: int| 0 <= k < next_pending@.len() implies b0.is_covered(
                        #[trigger] next_pending@[k],
                    ) && empty_frontier_upto(b0, ps, i + 1, next_pending@[k]) by {
                        lemma_frontier_step(b0, ps, i as int, next_pending@[k]);
                    }
                }
            },
        }
        i = i + 1;
    }
    proof {
        assert forall|c: Coordinates| #[trigger] board.is_covered(c) <==> (b0.is_covered(c)
            && !ps.contains(c)) by {
            lemma_appears_is_contains(ps, c);
        }
        assert forall|c: Coordinates| #[trigger] ps.contains(c) && b0.is_covered(c) implies
            freed@.contains((c, b0.handle_of(c))) by {
            lemma_appears_is_contains(ps, c);
        }
        assert forall|k: int| 0 <= k < freed@.len() implies ps.contains(
            (#[trigger] freed@[k]).0,
        ) && b0.is_covered(freed@[k].0) && freed@[k].1 == b0.handle_of(freed@[k].0) by {
            lemma_appears_is_contains(ps, freed@[k].0);
        }
    }
    TickOutcome { freed, next_pending, bomb_revealed }
}

/// Whether some tile covered in `b0` is revealed in `b1` and is a bomb.
pub open spec fn revealed_bomb_between(b0: Board, b1: Board) -> bool {
    exists|c: Coordinates|
        #[trigger] b0.is_covered(c) && !b1.is_covered(c) && b0.spec_tile_map().spec_tile(
            c,
        ) is Bomb
}

/// What a reveal cascade run to quiescence produced.
pub struct RevealOutcome {
    /// Every coordinate revealed during the run with the handle its cover
    /// was registered under.
    pub freed: Vec<(Coordinates, u64)>,
    /// Whether some revealed tile was a bomb.
    pub bomb_revealed: bool,
}

/// Queues an externally triggered reveal request: the coordinate is added
/// to the pending set only when it currently resolves to a covered tile, so
/// stale or out-of-range requests are dropped at the door.
pub fn enqueue_trigger(board: &Board, pending: &mut Vec<Coordinates>, c: Coordinates)
    requires
        board.wf(),
    ensures
        final(pending)@ == if board.is_covered(c) {
            old(pending)@.push(c)
        } else {
            old(pending)@
        },
{
    match board.tile_to_uncover(&c) {
        Some(_) => pending.push(c),
        None => {},
    }
}

/// Runs tick after tick until the pending queue empties. This always
/// terminates: a tick that schedules further work has revealed at least one
/// tile, and the covered registry of a finite grid can only shrink so often.
pub fn process_until_settled(board: &mut Board, pending: Vec<Coordinates>) -> (out: RevealOutcome)
    requires
        old(board).wf(),
    ensures
        final(board).wf(),
        final(board).spec_tile_map() == old(board).spec_tile_map(),
        forall|c: Coordinates| #[trigger] final(board).is_covered(c) ==> old(board).is_covered(c),
        forall|c: Coordinates| #[trigger] pending@.contains(c) ==> !final(board).is_covered(c),
        forall|c: Coordinates|
            final(board).is_covered(c) ==> #[trigger] final(board).handle_of(c) == old(
                board,
            ).handle_of(c),
        forall|k: int|
            0 <= k < out.freed@.len() ==> old(board).is_covered((#[trigger] out.freed@[k]).0)
                && !final(board).is_covered(out.freed@[k].0) && out.freed@[k].1 == old(
                board,
            ).handle_of(out.freed@[k].0),
        forall|c: Coordinates|
            old(board).is_covered(c) && !final(board).is_covered(c) ==> out.freed@.contains(
                (c, old(board).handle_of(c)),
            ),
        out.bomb_revealed == revealed_bomb_between(*old(board), *final(board)),
{
    let ghost b0 = *old(board);
    let ghost p0 = pending@;
    let mut cur = pending;
    let mut freed_all: Vec<(Coordinates, u64)> = Vec::new();
    let mut bomb: bool = false;
    while cur.len() > 0
        invariant
            board.wf(),
            b0.wf(),
            board.spec_tile_map() == b0.spec_tile_map(),
            forall|c: Coordinates| #[trigger] board.is_covered(c) ==> b0.is_covered(c),
            forall|c: Coordinates|
                board.is_covered(c) ==> #[trigger] board.handle_of(c) == b0.handle_of(c),
            forall|c: Coordinates|
                #[trigger] p0.contains(c) ==> !board.is_covered(c) || cur@.contains(c),
            forall|k: int|
                0 <= k < freed_all@.len() ==> b0.is_covered((#[trigger] freed_all@[k]).0)
                    && !board.is_covered(freed_all@[k].0) && freed_all@[k].1 == b0.handle_of(
                    freed_all@[k].0,
                ),
            forall|c: Coordinates|
                b0.is_covered(c) && !(#[trigger] board.is_covered(c)) ==> freed_all@.contains(
                    (c, b0.handle_of(c)),
                ),
            bomb == revealed_bomb_between(b0, *board),
        decreases board.covered_count() * 2 + (if cur@.len() > 0 {
            1int
        } else {
            0int
        }),
    {
        let ghost pre = *board;
        let ghost cur0 = cur@;
        let ghost old_freed_all = freed_all@;
        let out = process_tick(board, &cur);
        let mut fresh = out.freed;
        let ghost fr = fresh@;
        freed_all.append(&mut fresh);
        proof {
            assert(freed_all@ == old_freed_all + fr);
            assert forall|k: int| 0 <= k < freed_all@.len() implies b0.is_covered(
                (#[trigger] freed_all@[k]).0,
            ) && !board.is_covered(freed_all@[k].0) && freed_all@[k].1 == b0.handle_of(
                freed_all@[k].0,
            ) by {
                if k < old_freed_all.len() {
                    assert(freed_all@[k] == old_freed_all[k]);
                } else {
                    let e = fr[k - old_freed_all.len()];
                    assert(freed_all@[k] == e);
                    assert(cur0.contains(e.0) && pre.is_covered(e.0) && e.1 == pre.handle_of(
                        e.0,
                    ));
                }
            }
            assert forall|c: Coordinates| b0.is_covered(c) && !(#[trigger] board.is_covered(
                c,
            )) implies freed_all@.contains((c, b0.handle_of(c))) by {
                if !pre.is_covered(c) {
                    let j = choose|j: int|
                        0 <= j < old_freed_all.len() && old_freed_all[j] == (c, b0.handle_of(c));
                    assert(freed_all@[j] == (c, b0.handle_of(c)));
                    assert(freed_all@.contains((c, b0.handle_of(c))));
                } else {
                    assert(cur0.contains(c));
                    assert(fr.contains((c, pre.handle_of(c))));
                    assert(pre.handle_of(c) == b0.handle_of(c));
                    let j = choose|j: int|
                        0 <= j < fr.len() && fr[j] == (c, pre.handle_of(c));
                    assert(freed_all@[old_freed_all.len() + j] == (c, b0.handle_of(c)));
                    assert(freed_all@.contains((c, b0.handle_of(c))));
                }
            }
            assert forall|c: Coordinates| #[trigger] p0.contains(c) implies !board.is_covered(c)
                || out.next_pending@.contains(c) by {
                if pre.is_covered(c) && cur0.contains(c) {
                    assert(!board.is_covered(c));
                }
            }
        }
        let hit = out.bomb_revealed;
        proof {
            assert((bomb || hit) == revealed_bomb_between(b0, *board)) by {
                if revealed_bomb_between(b0, *board) {
                    let c = choose|c: Coordinates|
                        #[trigger] b0.is_covered(c) && !board.is_covered(c)
                            && b0.spec_tile_map().spec_tile(c) is Bomb;
                    if pre.is_covered(c) {
                        assert(cur0.contains(c));
                        let j = choose|j: int| 0 <= j < cur0.len() && cur0[j] == c;
                        assert(pre.is_covered(cur0[j]) && pre.spec_tile_map().spec_tile(
                            cur0[j],
                        ) is Bomb);
                        assert(hits_bomb(pre, cur0));
                    } else {
                        assert(revealed_bomb_between(b0, pre));
                    }
                }
                if bomb {
                    let c = choose|c: Coordinates|
                        #[trigger] b0.is_covered(c) && !pre.is_covered(c)
                            && b0.spec_tile_map().spec_tile(c) is Bomb;
                    assert(!board.is_covered(c));
                    assert(revealed_bomb_between(b0, *board));
                }
                if hit {
                    let j = choose|j: int|
                        0 <= j < cur0.len() && pre.is_covered(#[trigger] cur0[j])
                            && pre.spec_tile_map().spec_tile(cur0[j]) is Bomb;
                    let c = cur0[j];
                    assert(cur0.contains(c));
                    assert(!board.is_covered(c));
                    assert(b0.is_covered(c));
                    assert(b0.spec_tile_map().spec_tile(c) is Bomb);
                    assert(revealed_bomb_between(b0, *board));
                }
            }
        }
        bomb = bomb || hit;
        cur = out.next_pending;
        proof {
            lemma_covered_count_in_range(*board);
        }
    }
    RevealOutcome { freed: freed_all, bomb_revealed: bomb }
}

} // verus!
