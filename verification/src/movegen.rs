//! Move generation for the Hive rules (base game plus mosquito, ladybug and
//! pillbug). Each generator appends to a list of actions; the contracts give
//! the exact list each one produces, as a function of the board.

use vstd::prelude::*;
use crate::abstractions::TileSet;
use crate::action::{Action, ActionKind};
use crate::board::{Board, color_of_turn};
use crate::cut::cut_spec;
use crate::piece::{color_index, spec_other};
use crate::piece_type::{Pct, PieceType, pct_from_index, pct_index, lemma_pct_roundtrip};
use crate::tile::{adjacent, step, dir_at, dir_offset, Direction, Tile, GRID_SIZE, TILE_ZERO, tile_add};

verus! {

/// The `i`-th neighbour of `hex`, in the order `[NW, NE, E, SE, SW, W]`.
pub open spec fn nb(hex: int, i: int) -> int {
    step(hex, dir_at(i))
}

/// Some piece is on tile `t`.
pub open spec fn occ(b: Board, t: int) -> bool {
    b.world@[t].spec_is_some()
}

/// The movement of the piece on `from` to `to`.
pub open spec fn mv(from: int, to: int) -> Action {
    Action::spec_from_kind(ActionKind::Move(from as u16, to as u16))
}

/// Movements from `from` to each tile of `s`, in order.
pub open spec fn moves_to(from: int, s: Seq<Tile>) -> Seq<Action> {
    s.map_values(|t: Tile| mv(from, t as int))
}

/// Neighbour `i` of `hex` counts as a wall when sliding a piece that left
/// `origin`: it holds a piece other than the moving one.
pub open spec fn wall(b: Board, origin: int, hex: int, i: int) -> bool {
    occ(b, nb(hex, i)) && nb(hex, i) != origin
}

/// A piece on `hex` can slide to neighbour `i`: the neighbour is free and
/// exactly one of the two tiles beside the gap holds a piece, so the piece
/// keeps touching the hive without squeezing between two pieces.
pub open spec fn can_slide(b: Board, origin: int, hex: int, i: int) -> bool {
    !wall(b, origin, hex, i) && wall(b, origin, hex, (i + 5) % 6) != wall(b, origin, hex, (i + 1) % 6)
}

/// The neighbours among the first `k` of `hex` that can be slid to.
pub open spec fn slidable_upto(b: Board, origin: int, hex: int, k: int) -> Seq<Tile>
    decreases k,
{
    if k <= 0 {
        Seq::empty()
    } else {
        let r = slidable_upto(b, origin, hex, k - 1);
        if can_slide(b, origin, hex, k - 1) {
            r.push(nb(hex, k - 1) as u16)
        } else {
            r
        }
    }
}

/// The neighbours of `hex` that can be slid to, in neighbour order.
pub open spec fn slidable_spec(b: Board, origin: int, hex: int) -> Seq<Tile> {
    slidable_upto(b, origin, hex, 6)
}

/// Height of the stack on `t` as seen by a climbing piece that left `orig`.
pub open spec fn climb_height(b: Board, orig: int, hex: int) -> int {
    if orig == hex {
        b.height@[hex] - 1
    } else {
        b.height@[hex] as int
    }
}

/// A climbing piece on `hex` can step to neighbour `i`: it is off the
/// ground on one side, and the two stacks beside the gap are not both higher
/// than the higher of the two ends.
pub open spec fn can_climb(b: Board, orig: int, hex: int, i: int) -> bool {
    let h = climb_height(b, orig, hex);
    let hi = b.height@[nb(hex, i)] as int;
    let barrier = if h > hi {
        h
    } else {
        hi
    };
    barrier != 0 && !(b.height@[nb(hex, (i + 1) % 6)] > barrier && b.height@[nb(hex, (i + 5) % 6)]
        > barrier)
}

/// The neighbours among the first `k` of `hex` a climbing piece can reach.
pub open spec fn climbable_upto(b: Board, orig: int, hex: int, k: int) -> Seq<Tile>
    decreases k,
{
    if k <= 0 {
        Seq::empty()
    } else {
        let r = climbable_upto(b, orig, hex, k - 1);
        if can_climb(b, orig, hex, k - 1) {
            r.push(nb(hex, k - 1) as u16)
        } else {
            r
        }
    }
}

/// The neighbours of `hex` a climbing piece (beetle, ladybug, pillbug throw)
/// can step to, in neighbour order.
pub open spec fn climbable_spec(b: Board, orig: int, hex: int) -> Seq<Tile> {
    climbable_upto(b, orig, hex, 6)
}

/// The tile `k` steps from `hex` in direction `d`.
pub open spec fn ray(hex: int, d: Direction, k: int) -> int {
    (hex + k * dir_offset(d)) % (GRID_SIZE as int)
}

/// The first `k' >= k` at which the ray from `hex` in direction `d` reaches
/// a free tile or comes back to `hex`.
pub open spec fn jump_stop(b: Board, hex: int, d: Direction, k: int) -> int
    decreases GRID_SIZE - k,
{
    if k >= GRID_SIZE || ray(hex, d, k) == hex || !occ(b, ray(hex, d, k)) {
        k
    } else {
        jump_stop(b, hex, d, k + 1)
    }
}

/// A grasshopper on `hex` jumping in direction `d` lands on the first free
/// tile beyond a line of at least one piece (none if the line wraps around).
pub open spec fn jump_spec(b: Board, hex: int, d: Direction) -> Option<Tile> {
    let k = jump_stop(b, hex, d, 1);
    if 1 < k < GRID_SIZE && ray(hex, d, k) != hex {
        Some(ray(hex, d, k) as u16)
    } else {
        None
    }
}

/// The grasshopper jumps from `hex` over the first `k` directions.
pub open spec fn jumps_upto(b: Board, hex: int, k: int) -> Seq<Action>
    decreases k,
{
    if k <= 0 {
        Seq::empty()
    } else {
        let r = jumps_upto(b, hex, k - 1);
        match jump_spec(b, hex, dir_at(k - 1)) {
            Some(t) => r.push(mv(hex, t as int)),
            None => r,
        }
    }
}

/// From any start at or after the first step of a run of occupied tiles
/// (none of them `hex`) ending just before the free tile `k` steps away,
/// the stop is at `k`.
proof fn lemma_jump_stop_at(b: Board, hex: int, d: Direction, j: int, k: int)
    requires
        1 <= j <= k < GRID_SIZE,
        forall|m: int| j <= m < k ==> occ(b, #[trigger] ray(hex, d, m)),
        forall|m: int| j <= m <= k ==> #[trigger] ray(hex, d, m) != hex,
        !occ(b, ray(hex, d, k)),
    ensures
        jump_stop(b, hex, d, j) == k,
    decreases k - j,
{
    if j < k {
        assert(occ(b, ray(hex, d, j)));
        assert(ray(hex, d, j) != hex);
        lemma_jump_stop_at(b, hex, d, j + 1, k);
    } else {
        assert(ray(hex, d, k) != hex);
    }
}

/// A move pushed for direction `i` below `n` is among the jumps over the
/// first `n` directions.
proof fn lemma_jumps_upto_has(b: Board, hex: int, n: int, i: int, t: Tile)
    requires
        0 <= i < n,
        jump_spec(b, hex, dir_at(i)) == Some(t),
    ensures
        jumps_upto(b, hex, n).contains(mv(hex, t as int)),
    decreases n,
{
    if i < n - 1 {
        lemma_jumps_upto_has(b, hex, n - 1, i, t);
        let r = jumps_upto(b, hex, n - 1);
        let k = choose|k: int| 0 <= k < r.len() && r[k] == mv(hex, t as int);
        match jump_spec(b, hex, dir_at(n - 1)) {
            Some(u) => assert(r.push(mv(hex, u as int))[k] == mv(hex, t as int)),
            None => {},
        }
    } else {
        let r = jumps_upto(b, hex, n - 1);
        assert(jumps_upto(b, hex, n)[r.len() as int] == mv(hex, t as int));
    }
}

/// A grasshopper jumps over any run of one or more pieces: when, from
/// `hex` in direction `dir_at(i)`, the tiles `1..k` steps away hold pieces
/// (`k >= 2`, so at least the neighbour) and the tile `k` steps away is free
/// (none of them being `hex` itself), the grasshopper's moves from `hex`
/// include the jump to that free tile, and the jump in that direction lands
/// there.
pub proof fn law_grasshopper_jumps_over_a_run_of_pieces(b: Board, hex: int, i: int, k: int)
    requires
        0 <= hex < GRID_SIZE,
        0 <= i < 6,
        2 <= k < GRID_SIZE,
        forall|m: int| 1 <= m < k ==> occ(b, #[trigger] ray(hex, dir_at(i), m)),
        forall|m: int| 1 <= m <= k ==> #[trigger] ray(hex, dir_at(i), m) != hex,
        !occ(b, ray(hex, dir_at(i), k)),
    ensures
        jump_spec(b, hex, dir_at(i)) == Some(ray(hex, dir_at(i), k) as Tile),
        jumps_upto(b, hex, 6).contains(mv(hex, ray(hex, dir_at(i), k))),
        b.world@[hex].spec_ptype() == PieceType::Grasshopper ==> piece_moves(b, hex).contains(
            mv(hex, ray(hex, dir_at(i), k)),
        ),
{
    let d = dir_at(i);
    lemma_jump_stop_at(b, hex, d, 1, k);
    lemma_ray_step(hex, d, k);
    lemma_jumps_upto_has(b, hex, 6, i, ray(hex, d, k) as Tile);
}

/// Where the ray from `hex` stops, starting `j` steps out: every tile
/// before the stop is occupied, on the grid and not `hex`; the stop is off
/// the grid's period, back at `hex`, or free.
proof fn lemma_jump_stop_facts(b: Board, hex: int, d: Direction, j: int)
    requires
        0 <= j,
    ensures
        j <= jump_stop(b, hex, d, j),
        forall|m: int| j <= m < jump_stop(b, hex, d, j) ==> occ(b, #[trigger] ray(hex, d, m)) && ray(hex, d, m) != hex
            && m < GRID_SIZE,
        jump_stop(b, hex, d, j) >= GRID_SIZE || ray(hex, d, jump_stop(b, hex, d, j)) == hex || !occ(
            b,
            ray(hex, d, jump_stop(b, hex, d, j)),
        ),
    decreases GRID_SIZE - j,
{
    if !(j >= GRID_SIZE || ray(hex, d, j) == hex || !occ(b, ray(hex, d, j))) {
        lemma_jump_stop_facts(b, hex, d, j + 1);
    }
}

/// Each jump among the first `n` directions comes from one of them.
proof fn lemma_jumps_upto_from(b: Board, hex: int, n: int, m: int)
    requires
        0 <= m < jumps_upto(b, hex, n).len(),
    ensures
        exists|i: int|
            0 <= i < n && (#[trigger] jump_spec(b, hex, dir_at(i))) is Some && jumps_upto(b, hex, n)[m] == mv(
                hex,
                jump_spec(b, hex, dir_at(i))->0 as int,
            ),
    decreases n,
{
    let r = jumps_upto(b, hex, n - 1);
    if m < r.len() {
        lemma_jumps_upto_from(b, hex, n - 1, m);
        let i = choose|i: int|
            0 <= i < n - 1 && (#[trigger] jump_spec(b, hex, dir_at(i))) is Some && r[m] == mv(
                hex,
                jump_spec(b, hex, dir_at(i))->0 as int,
            );
        match jump_spec(b, hex, dir_at(n - 1)) {
            Some(u) => assert(r.push(mv(hex, u as int))[m] == r[m]),
            None => {},
        }
        assert(jumps_upto(b, hex, n)[m] == r[m]);
        assert(jump_spec(b, hex, dir_at(i)) is Some);
    } else {
        assert(jump_spec(b, hex, dir_at(n - 1)) is Some);
    }
}

/// Every grasshopper jump from `hex` lands, in one of the six directions,
/// on the first free tile beyond a run of one or more pieces (none of them
/// on `hex`).
pub proof fn law_grasshopper_jumps_land_beyond_a_run(b: Board, hex: int, m: int)
    requires
        0 <= hex < GRID_SIZE,
        0 <= m < jumps_upto(b, hex, 6).len(),
    ensures
        exists|i: int, k: int|
            0 <= i < 6 && 2 <= k < GRID_SIZE && jumps_upto(b, hex, 6)[m] == mv(hex, #[trigger] ray(hex, dir_at(i), k))
                && !occ(b, ray(hex, dir_at(i), k)) && (forall|j: int|
                1 <= j < k ==> occ(b, #[trigger] ray(hex, dir_at(i), j))) && (forall|j: int|
                1 <= j <= k ==> #[trigger] ray(hex, dir_at(i), j) != hex),
{
    lemma_jumps_upto_from(b, hex, 6, m);
    let i = choose|i: int|
        0 <= i < 6 && (#[trigger] jump_spec(b, hex, dir_at(i))) is Some && jumps_upto(b, hex, 6)[m] == mv(
            hex,
            jump_spec(b, hex, dir_at(i))->0 as int,
        );
    let t = jump_spec(b, hex, dir_at(i))->0;
    let d = dir_at(i);
    let k = jump_stop(b, hex, d, 1);
    lemma_jump_stop_facts(b, hex, d, 1);
    lemma_ray_step(hex, d, k);
    assert(t as int == ray(hex, d, k));
    assert(jumps_upto(b, hex, 6)[m] == mv(hex, ray(hex, d, k)));
}

/// The simplest jump: over the single piece next to `hex` in direction
/// `dir_at(i)`, onto the free tile behind it.
pub proof fn law_grasshopper_jumps_over_one_neighbour(b: Board, hex: int, i: int)
    requires
        0 <= hex < GRID_SIZE,
        0 <= i < 6,
        occ(b, step(hex, dir_at(i))),
        !occ(b, step(step(hex, dir_at(i)), dir_at(i))),
        step(step(hex, dir_at(i)), dir_at(i)) != hex,
    ensures
        jumps_upto(b, hex, 6).contains(mv(hex, step(step(hex, dir_at(i)), dir_at(i)))),
        b.world@[hex].spec_ptype() == PieceType::Grasshopper ==> piece_moves(b, hex).contains(
            mv(hex, step(step(hex, dir_at(i)), dir_at(i))),
        ),
{
    let d = dir_at(i);
    lemma_ray_step(hex, d, 0);
    lemma_ray_step(hex, d, 1);
    lemma_nb_ne(hex, i);
    assert(ray(hex, d, 1) == step(hex, d));
    assert(ray(hex, d, 2) == step(step(hex, d), d));
    assert forall|m: int| 1 <= m <= 2 implies #[trigger] ray(hex, d, m) != hex by {
        if m == 1 {
            assert(nb(hex, i) == step(hex, d));
        }
    }
    law_grasshopper_jumps_over_a_run_of_pieces(b, hex, i, 2);
}

/// A stepping tile is on the grid.
pub proof fn lemma_ray_step(hex: int, d: Direction, k: int)
    requires
        0 <= hex < GRID_SIZE,
        k >= 0,
    ensures
        ray(hex, d, k + 1) == step(ray(hex, d, k), d),
        0 <= ray(hex, d, k) < GRID_SIZE,
        ray(hex, d, GRID_SIZE as int) == hex,
        ray(hex, d, 0) == hex,
{
    let o = dir_offset(d);
    assert((hex + (k + 1) * o) % 1024 == ((hex + k * o) % 1024 + o) % 1024) by {
        vstd::arithmetic::div_mod::lemma_add_mod_noop(hex + k * o, o, 1024);
        vstd::arithmetic::div_mod::lemma_mod_twice(o, 1024);
        assert(hex + (k + 1) * o == hex + k * o + o) by (nonlinear_arith);
    }
    assert((hex + 1024 * o) % 1024 == hex) by {
        vstd::arithmetic::div_mod::lemma_mod_multiples_vanish(o, hex, 1024);
        assert(1024 * o == o * 1024) by (nonlinear_arith);
    }
}


/// The tiles of `c` that are neither in `seen` nor earlier in `c`, in
/// order of first occurrence.
pub open spec fn dedup(c: Seq<Tile>, seen: Set<Tile>) -> Seq<Tile>
    decreases c.len(),
{
    if c.len() == 0 {
        Seq::empty()
    } else {
        let r = dedup(c.drop_last(), seen);
        let x = c.last();
        if seen.contains(x) || c.drop_last().contains(x) {
            r
        } else {
            r.push(x)
        }
    }
}

/// The tiles of `s` other than `x`, in order.
pub open spec fn without(s: Seq<Tile>, x: int) -> Seq<Tile>
    decreases s.len(),
{
    if s.len() == 0 {
        s
    } else {
        let r = without(s.drop_last(), x);
        if s.last() as int != x {
            r.push(s.last())
        } else {
            r
        }
    }
}

/// The tiles of `s` with (`want` true) or without a piece, in order.
pub open spec fn with_occ(b: Board, s: Seq<Tile>, want: bool) -> Seq<Tile>
    decreases s.len(),
{
    if s.len() == 0 {
        s
    } else {
        let r = with_occ(b, s.drop_last(), want);
        if occ(b, s.last() as int) == want {
            r.push(s.last())
        } else {
            r
        }
    }
}

/// Spider candidates through `s1` then `s2`.
pub open spec fn walk3_inner(b: Board, orig: int, s1: int, s2: int) -> Seq<Tile> {
    if s2 == orig {
        Seq::empty()
    } else {
        without(slidable_spec(b, orig, s2), s1)
    }
}

/// Spider candidates through `s1` and one of the first `k` second steps.
pub open spec fn walk3_mid(b: Board, orig: int, s1: int, k: int) -> Seq<Tile>
    decreases k,
{
    if k <= 0 {
        Seq::empty()
    } else {
        walk3_mid(b, orig, s1, k - 1) + walk3_inner(b, orig, s1, slidable_spec(b, orig, s1)[k - 1] as int)
    }
}

/// Spider candidates through one of the first `k` first steps: ends of
/// three-slide paths `orig, s1, s2, s3` with `s2 != orig` and `s3 != s1`,
/// in the order they are found.
pub open spec fn walk3_outer(b: Board, orig: int, k: int) -> Seq<Tile>
    decreases k,
{
    if k <= 0 {
        Seq::empty()
    } else {
        let s1 = slidable_spec(b, orig, orig)[k - 1] as int;
        walk3_outer(b, orig, k - 1) + walk3_mid(b, orig, s1, slidable_spec(b, orig, s1).len() as int)
    }
}

/// Spider destinations from `orig`: ends of three-slide paths that do not
/// backtrack, other than `orig`, each once, in order of discovery.
pub open spec fn walk3_spec(b: Board, orig: int) -> Seq<Tile> {
    dedup(walk3_outer(b, orig, slidable_spec(b, orig, orig).len() as int), Set::empty().insert(orig as u16))
}

/// Second-step candidates of a ladybug on `hex` through the first `k`
/// occupied first steps.
pub open spec fn ladybug_s2(b: Board, hex: int, k: int) -> Seq<Tile>
    decreases k,
{
    if k <= 0 {
        Seq::empty()
    } else {
        let s1 = with_occ(b, climbable_spec(b, hex, hex), true)[k - 1] as int;
        ladybug_s2(b, hex, k - 1) + with_occ(b, climbable_spec(b, hex, s1), true)
    }
}

/// Ladybug second steps: occupied tiles climbed to from an occupied first
/// step, each once, in order of discovery.
pub open spec fn ladybug_mid(b: Board, hex: int) -> Seq<Tile> {
    dedup(ladybug_s2(b, hex, with_occ(b, climbable_spec(b, hex, hex), true).len() as int), Set::empty())
}

/// Final-step candidates of a ladybug on `hex` through the first `k` tiles
/// of `mids`: free tiles one step down from them.
pub open spec fn ladybug_s3(b: Board, hex: int, mids: Seq<Tile>, k: int) -> Seq<Tile>
    decreases k,
{
    if k <= 0 {
        Seq::empty()
    } else {
        ladybug_s3(b, hex, mids, k - 1) + with_occ(b, climbable_spec(b, hex, mids[k - 1] as int), false)
    }
}

/// Ladybug destinations from `hex`: two steps on top of the hive then one
/// step down to a free tile, each once, in order of discovery.
pub open spec fn ladybug_spec(b: Board, hex: int) -> Seq<Tile> {
    let mids = ladybug_mid(b, hex);
    dedup(ladybug_s3(b, hex, mids, mids.len() as int), Set::empty())
}

/// Filtering out a tile, over a list extended by one element.
pub proof fn lemma_without_push(s: Seq<Tile>, x: Tile, y: int)
    ensures
        without(s.push(x), y) == if x as int != y {
            without(s, y).push(x)
        } else {
            without(s, y)
        },
{
    assert(s.push(x).drop_last() =~= s);
}

/// Filtering by occupancy, over a list extended by one element.
pub proof fn lemma_with_occ_push(b: Board, s: Seq<Tile>, x: Tile, want: bool)
    ensures
        with_occ(b, s.push(x), want) == if occ(b, x as int) == want {
            with_occ(b, s, want).push(x)
        } else {
            with_occ(b, s, want)
        },
{
    assert(s.push(x).drop_last() =~= s);
}

/// What filtering by occupancy keeps comes from the list and has the
/// wanted occupancy.
pub proof fn lemma_with_occ_sub(b: Board, s: Seq<Tile>, want: bool)
    ensures
        with_occ(b, s, want).len() <= s.len(),
        forall|i: int|
            0 <= i < with_occ(b, s, want).len() ==> s.contains(#[trigger] with_occ(b, s, want)[i])
                && occ(b, with_occ(b, s, want)[i] as int) == want,
    decreases s.len(),
{
    if s.len() > 0 {
        lemma_with_occ_sub(b, s.drop_last(), want);
        let r = with_occ(b, s.drop_last(), want);
        assert forall|i: int| 0 <= i < r.len() implies s.contains(#[trigger] r[i]) by {
            let j = choose|j: int| 0 <= j < s.drop_last().len() && s.drop_last()[j] == r[i];
            assert(s[j] == r[i]);
        }
        assert(s[s.len() - 1] == s.last());
    }
}

/// Appending one tile to a list extends its deduplication by that tile when
/// the tile is new.
pub proof fn lemma_dedup_push(c: Seq<Tile>, seen: Set<Tile>, x: Tile)
    ensures
        dedup(c.push(x), seen) == if seen.contains(x) || c.contains(x) {
            dedup(c, seen)
        } else {
            dedup(c, seen).push(x)
        },
{
    assert(c.push(x).drop_last() =~= c);
}

/// Deduplicating a concatenation: the second part is deduplicated against
/// what was seen plus everything in the first part.
pub proof fn lemma_dedup_concat(c: Seq<Tile>, d: Seq<Tile>, seen: Set<Tile>)
    ensures
        dedup(c + d, seen) == dedup(c, seen) + dedup(d, seen.union(c.to_set())),
    decreases d.len(),
{
    if d.len() == 0 {
        assert(c + d =~= c);
        assert(dedup(c, seen) + dedup(d, seen.union(c.to_set())) =~= dedup(c, seen));
    } else {
        let d1 = d.drop_last();
        let x = d.last();
        lemma_dedup_concat(c, d1, seen);
        assert((c + d).drop_last() =~= c + d1);
        assert((c + d).last() == x);
        let s2 = seen.union(c.to_set());
        assert((c + d1).contains(x) <==> (c.contains(x) || d1.contains(x))) by {
            if (c + d1).contains(x) {
                let j = choose|j: int| 0 <= j < (c + d1).len() && (c + d1)[j] == x;
                if j < c.len() {
                    assert(c[j] == x);
                } else {
                    assert(d1[j - c.len()] == x);
                }
            }
            if c.contains(x) {
                let j = choose|j: int| 0 <= j < c.len() && c[j] == x;
                assert((c + d1)[j] == x);
            }
            if d1.contains(x) {
                let j = choose|j: int| 0 <= j < d1.len() && d1[j] == x;
                assert((c + d1)[j + c.len()] == x);
            }
        }
        assert(s2.contains(x) == (seen.contains(x) || c.contains(x)));
        if seen.contains(x) || (c + d1).contains(x) {
            assert(dedup(c + d, seen) == dedup(c + d1, seen));
        } else {
            assert(dedup(c + d, seen) == dedup(c + d1, seen).push(x));
        }
        assert(dedup(c + d, seen) =~= dedup(c, seen) + dedup(d, s2));
    }
}

/// The tiles of a concatenation are those of its parts.
pub proof fn lemma_concat_to_set(a: Seq<Tile>, b: Seq<Tile>)
    ensures
        (a + b).to_set() == a.to_set().union(b.to_set()),
{
    assert forall|x: Tile| #[trigger] (a + b).contains(x) <==> (a.contains(x) || b.contains(x)) by {
        if (a + b).contains(x) {
            let j = choose|j: int| 0 <= j < (a + b).len() && (a + b)[j] == x;
            if j < a.len() {
                assert(a[j] == x);
            } else {
                assert(b[j - a.len()] == x);
            }
        }
        if a.contains(x) {
            let j = choose|j: int| 0 <= j < a.len() && a[j] == x;
            assert((a + b)[j] == x);
        }
        if b.contains(x) {
            let j = choose|j: int| 0 <= j < b.len() && b[j] == x;
            assert((a + b)[j + a.len()] == x);
        }
    }
    assert((a + b).to_set() =~= a.to_set().union(b.to_set()));
}

/// Every tile of a deduplicated list is in the list and was not seen.
pub proof fn lemma_dedup_sub(c: Seq<Tile>, seen: Set<Tile>)
    ensures
        forall|i: int|
            0 <= i < dedup(c, seen).len() ==> c.contains(#[trigger] dedup(c, seen)[i])
                && !seen.contains(dedup(c, seen)[i]),
        dedup(c, seen).len() <= c.len(),
    decreases c.len(),
{
    if c.len() > 0 {
        lemma_dedup_sub(c.drop_last(), seen);
        let r = dedup(c.drop_last(), seen);
        assert forall|i: int| 0 <= i < r.len() implies c.contains(#[trigger] r[i]) by {
            let j = choose|j: int| 0 <= j < c.drop_last().len() && c.drop_last()[j] == r[i];
            assert(c[j] == r[i]);
        }
        assert(c[c.len() - 1] == c.last());
    }
}

/// The tiles of `s` not in `v`, in order.
pub open spec fn unvisited_of(s: Seq<Tile>, v: Set<Tile>) -> Seq<Tile>
    decreases s.len(),
{
    if s.len() == 0 {
        s
    } else {
        let r = unvisited_of(s.drop_last(), v);
        if v.contains(s.last()) {
            r
        } else {
            r.push(s.last())
        }
    }
}

/// State of the ant's depth-first walk: tiles still to look at (the last
/// one next), tiles reached, destinations found.
pub type WalkState = (Seq<Tile>, Set<Tile>, Seq<Tile>);

/// One step of the ant's walk from `orig`: take the last tile off the
/// stack; if it was not reached yet, mark it, record it as a destination
/// (unless it is `orig`) and push its slidable neighbours not reached yet.
pub open spec fn walk_step(b: Board, orig: int, st: WalkState) -> WalkState {
    let (stack, visited, out) = st;
    if stack.len() == 0 {
        st
    } else {
        let node = stack.last();
        let rest = stack.drop_last();
        if visited.contains(node) {
            (rest, visited, out)
        } else {
            let v2 = visited.insert(node);
            let out2 = if node as int != orig {
                out.push(node)
            } else {
                out
            };
            (rest + unvisited_of(slidable_spec(b, orig, node as int), v2), v2, out2)
        }
    }
}

/// The walk run for at most `fuel` steps, stopping when the stack is empty.
pub open spec fn walk_run(b: Board, orig: int, st: WalkState, fuel: nat) -> WalkState
    decreases fuel,
{
    if fuel == 0 || st.0.len() == 0 {
        st
    } else {
        walk_run(b, orig, walk_step(b, orig, st), (fuel - 1) as nat)
    }
}

/// Number of grid tiles below `n` not in `v`.
pub open spec fn unvisited_count(v: Set<Tile>, n: int) -> int
    decreases n,
{
    if n <= 0 {
        0
    } else {
        unvisited_count(v, n - 1) + if v.contains((n - 1) as u16) {
            0int
        } else {
            1int
        }
    }
}

/// A bound on the number of steps left in the walk: each step either pops a
/// tile or reaches a new one and pushes at most six.
pub open spec fn walk_measure(st: WalkState) -> int {
    7 * unvisited_count(st.1, GRID_SIZE as int) + st.0.len()
}

/// Steps enough for any walk to finish.
pub open spec fn walk_fuel() -> nat {
    (7 * GRID_SIZE + 1) as nat
}

/// Ant destinations from `orig`: every tile reached by a chain of slides,
/// other than `orig`, in the order of a depth-first walk.
pub open spec fn walk_all_spec(b: Board, orig: int) -> Seq<Tile> {
    walk_run(b, orig, (seq![orig as u16], Set::empty(), Seq::empty()), walk_fuel()).2
}

/// Reaching a new grid tile lowers the count of unreached tiles by one.
pub proof fn lemma_unvisited_count_insert(v: Set<Tile>, x: Tile, n: int)
    requires
        x < GRID_SIZE,
        !v.contains(x),
        0 <= n <= GRID_SIZE,
    ensures
        unvisited_count(v.insert(x), n) == unvisited_count(v, n) - (if x < n {
            1int
        } else {
            0int
        }),
        0 <= unvisited_count(v, n) <= n,
    decreases n,
{
    if n > 0 {
        lemma_unvisited_count_insert(v, x, n - 1);
    }
}

/// The count of unreached tiles below `n` is between 0 and `n`.
pub proof fn lemma_unvisited_count_bounds(v: Set<Tile>, n: int)
    requires
        0 <= n,
    ensures
        0 <= unvisited_count(v, n) <= n,
    decreases n,
{
    if n > 0 {
        lemma_unvisited_count_bounds(v, n - 1);
    }
}

/// A tile has at most six neighbours to slide to.
pub proof fn lemma_slidable_len(b: Board, origin: int, hex: int, k: int)
    requires
        0 <= k,
    ensures
        slidable_upto(b, origin, hex, k).len() <= k,
    decreases k,
{
    if k > 0 {
        lemma_slidable_len(b, origin, hex, k - 1);
    }
}

/// Nothing is reached at first.
pub proof fn lemma_count_empty(n: int)
    requires
        0 <= n <= GRID_SIZE,
    ensures
        unvisited_count(Set::<Tile>::empty(), n) == n,
    decreases n,
{
    if n > 0 {
        lemma_count_empty(n - 1);
    }
}

/// Filtering out reached tiles, over a list extended by one element.
pub proof fn lemma_unvisited_push(s: Seq<Tile>, v: Set<Tile>, x: Tile)
    ensures
        unvisited_of(s.push(x), v) == if v.contains(x) {
            unvisited_of(s, v)
        } else {
            unvisited_of(s, v).push(x)
        },
        unvisited_of(s, v).len() <= s.len(),
    decreases s.len(),
{
    assert(s.push(x).drop_last() =~= s);
    if s.len() > 0 {
        lemma_unvisited_push(s.drop_last(), v, s.last());
        assert(s.drop_last().push(s.last()) =~= s);
    }
}

/// A tile no piece on `hex` is next to: two steps north-west. Throws use it
/// as the origin so that the pillbug's own tile counts at its full height.
pub open spec fn throw_origin(hex: int) -> int {
    step(step(hex, Direction::NW), Direction::NW)
}

/// The tiles of `s` a pillbug may lift a piece from: a lone piece that may
/// move.
pub open spec fn throw_sources(b: Board, imm: Set<Tile>, s: Seq<Tile>) -> Seq<Tile>
    decreases s.len(),
{
    if s.len() == 0 {
        s
    } else {
        let r = throw_sources(b, imm, s.drop_last());
        let x = s.last();
        if b.height@[x as int] == 1 && !imm.contains(x) {
            r.push(x)
        } else {
            r
        }
    }
}

/// The free tiles of `s`, in order.
pub open spec fn throw_targets(b: Board, s: Seq<Tile>) -> Seq<Tile>
    decreases s.len(),
{
    if s.len() == 0 {
        s
    } else {
        let r = throw_targets(b, s.drop_last());
        let x = s.last();
        if b.height@[x as int] == 0 {
            r.push(x)
        } else {
            r
        }
    }
}

/// A movement from each tile of `starts` to each tile of `ends`, starts in
/// the outer order.
pub open spec fn all_pairs(starts: Seq<Tile>, ends: Seq<Tile>) -> Seq<Action>
    decreases starts.len(),
{
    if starts.len() == 0 {
        Seq::empty()
    } else {
        all_pairs(starts.drop_last(), ends) + moves_to(starts.last() as int, ends)
    }
}

/// The pillbug on `hex` can move an adjacent lone, movable piece over
/// itself to any adjacent free tile it can climb to.
pub open spec fn throws_spec(b: Board, imm: Set<Tile>, hex: int) -> Seq<Action> {
    let n = climbable_spec(b, throw_origin(hex), hex);
    all_pairs(throw_sources(b, imm, n), throw_targets(b, n))
}

/// A piece of type `p` is among the first `k` neighbours of `hex`.
pub open spec fn touches_upto(b: Board, hex: int, p: PieceType, k: int) -> bool
    decreases k,
{
    if k <= 0 {
        false
    } else {
        touches_upto(b, hex, p, k - 1) || (occ(b, nb(hex, k - 1)) && b.world@[nb(
            hex,
            k - 1,
        )].spec_ptype() == p)
    }
}

/// A piece of type `p` is next to `hex`.
pub open spec fn touches(b: Board, hex: int, p: PieceType) -> bool {
    touches_upto(b, hex, p, 6)
}

/// `s` if `c` holds, else nothing.
pub open spec fn when(c: bool, s: Seq<Action>) -> Seq<Action> {
    if c {
        s
    } else {
        Seq::empty()
    }
}

/// The moves a mosquito on `hex` borrows from its neighbours, before
/// duplicates are dropped. Next to an ant it walks as an ant, which covers
/// the queen, beetle, pillbug and spider walks.
pub open spec fn mosquito_raw(b: Board, hex: int) -> Seq<Action> {
    (if touches(b, hex, PieceType::Ant) {
        moves_to(hex, walk_all_spec(b, hex))
    } else {
        when(
            touches(b, hex, PieceType::Queen) || touches(b, hex, PieceType::Beetle) || touches(
                b,
                hex,
                PieceType::Pillbug,
            ),
            moves_to(hex, slidable_spec(b, hex, hex)),
        ) + when(touches(b, hex, PieceType::Spider), moves_to(hex, walk3_spec(b, hex)))
    }) + when(touches(b, hex, PieceType::Grasshopper), jumps_upto(b, hex, 6)) + when(
        touches(b, hex, PieceType::Beetle),
        moves_to(hex, climbable_spec(b, hex, hex)),
    ) + when(touches(b, hex, PieceType::Ladybug), moves_to(hex, ladybug_spec(b, hex)))
}

/// Destination of a movement.
pub open spec fn move_dest(a: Action) -> Tile {
    (a.spec_bits() & 0x3ff) as u16
}

/// Drops, from index `i` on, each movement whose destination was seen
/// before, by moving the last movement into its place.
pub open spec fn swap_dedup(s: Seq<Action>, i: int, seen: Set<Tile>) -> Seq<Action>
    decreases s.len() - i,
{
    if i < 0 || i >= s.len() {
        s
    } else if seen.contains(move_dest(s[i])) {
        swap_dedup(s.update(i, s.last()).drop_last(), i, seen)
    } else {
        swap_dedup(s, i + 1, seen.insert(move_dest(s[i])))
    }
}

/// The moves of a mosquito on `hex`, one per destination.
pub open spec fn mosquito_spec(b: Board, hex: int) -> Seq<Action> {
    swap_dedup(mosquito_raw(b, hex), 0, Set::empty())
}

/// The six neighbours of `t`, as tiles.
pub open spec fn nbr_tiles(t: int) -> Seq<Tile> {
    Seq::new(6, |i: int| nb(t, i) as u16)
}

/// The neighbours of each tile of `s`, in order.
pub open spec fn nbrs_all(s: Seq<Tile>) -> Seq<Tile>
    decreases s.len(),
{
    if s.len() == 0 {
        Seq::empty()
    } else {
        nbrs_all(s.drop_last()) + nbr_tiles(s.last() as int)
    }
}

/// Index of the player to move.
pub open spec fn mover(b: Board) -> int {
    color_index(color_of_turn(b.turn_num as int))
}

/// The player to move has not placed the queen by the sixth ply.
pub open spec fn queen_required_spec(b: Board) -> bool {
    b.turn_num > 5 && b.placeable[mover(b)][0] > 0
}

/// The piece types among the first `k` the player to move may place: in
/// hand, and only the queen when the queen is required.
pub open spec fn placeable_bugs(b: Board, k: int) -> Seq<PieceType>
    decreases k,
{
    if k <= 0 {
        Seq::empty()
    } else {
        let r = placeable_bugs(b, k - 1);
        if (!queen_required_spec(b) || k - 1 == 0) && b.placeable[mover(b)][k - 1] > 0 {
            r.push(pct_from_index(k - 1))
        } else {
            r
        }
    }
}

/// Placements of each of `bugs` on `t`.
pub open spec fn places(t: Tile, bugs: Seq<PieceType>) -> Seq<Action> {
    bugs.map_values(|p: PieceType| Action::spec_from_kind(ActionKind::Place(t, p)))
}

/// Placements of each of `bugs` on each tile of `tiles`, tiles outermost.
pub open spec fn places_all(tiles: Seq<Tile>, bugs: Seq<PieceType>) -> Seq<Action>
    decreases tiles.len(),
{
    if tiles.len() == 0 {
        Seq::empty()
    } else {
        places_all(tiles.drop_last(), bugs) + places(tiles.last(), bugs)
    }
}

/// The tiles a new piece may go on: free tiles next to the mover's pieces
/// and not next to the opponent's, in order of discovery.
pub open spec fn placement_tiles(b: Board) -> Seq<Tile> {
    let friends = b.occupied_tiles[mover(b)].occupants@;
    let enemies = b.occupied_tiles[color_index(spec_other(color_of_turn(b.turn_num as int)))].occupants@;
    with_occ(b, dedup(nbrs_all(friends), nbrs_all(enemies).to_set()), false)
}

/// Placements of the player to move.
pub open spec fn placements_spec(b: Board) -> Seq<Action> {
    places_all(placement_tiles(b), placeable_bugs(b, 8))
}

/// The piece types among the first `k`, other than the queen, that the
/// player to move has in hand (the queen may not open the game).
pub open spec fn opening_bugs(b: Board, k: int) -> Seq<PieceType>
    decreases k,
{
    if k <= 0 {
        Seq::empty()
    } else {
        let r = opening_bugs(b, k - 1);
        if k - 1 != 0 && b.placeable[mover(b)][k - 1] > 0 {
            r.push(pct_from_index(k - 1))
        } else {
            r
        }
    }
}

/// Placements of each of `bugs` on each neighbour of the first tile,
/// bugs outermost.
pub open spec fn places_around(bugs: Seq<PieceType>) -> Seq<Action>
    decreases bugs.len(),
{
    if bugs.len() == 0 {
        Seq::empty()
    } else {
        places_around(bugs.drop_last()) + nbr_tiles(TILE_ZERO as int).map_values(
            |t: Tile| Action::spec_from_kind(ActionKind::Place(t, bugs.last())),
        )
    }
}

/// The moves of the first two plies: the first piece on the first tile,
/// the second next to it; never the queen.
pub open spec fn opening_spec(b: Board) -> Seq<Action> {
    if b.turn_num == 0 {
        places(TILE_ZERO, opening_bugs(b, 8))
    } else {
        places_around(opening_bugs(b, 8))
    }
}

/// The destination of the last action if it was a movement: the piece
/// there may not move this turn.
pub open spec fn stunned(b: Board) -> Option<Tile> {
    if b.turn_history@.len() > 0 {
        match b.turn_history@.last().spec_kind() {
            ActionKind::Move(_, t) => Some(t),
            _ => None,
        }
    } else {
        None
    }
}

/// The piece on `hex` can throw: a pillbug, or a mosquito on the ground next
/// to a pillbug.
pub open spec fn can_throw(b: Board, hex: int) -> bool {
    b.world@[hex].spec_ptype() == PieceType::Pillbug || (b.world@[hex].spec_ptype()
        == PieceType::Mosquito && b.height@[hex] <= 1 && touches(b, hex, PieceType::Pillbug))
}

/// Drops, from index `i` on, each action that is also in `p`, moving the
/// last action into its place.
pub open spec fn drop_seen(s: Seq<Action>, i: int, p: Seq<Action>) -> Seq<Action>
    decreases s.len() - i,
{
    if i < 0 || i >= s.len() {
        s
    } else if p.contains(s[i]) {
        drop_seen(s.update(i, s.last()).drop_last(), i, p)
    } else {
        drop_seen(s, i + 1, p)
    }
}

/// Throws found so far, with the tiles thrown from and to.
pub type ThrowState = (Seq<Action>, Set<Tile>, Set<Tile>);

/// The throws of the pieces on the tiles of `fr`, each new throw list
/// stripped of throws already found.
pub open spec fn throw_phase(b: Board, imm: Set<Tile>, fr: Seq<Tile>) -> ThrowState
    decreases fr.len(),
{
    if fr.len() == 0 {
        (Seq::empty(), Set::empty(), Set::empty())
    } else {
        let (n, ts, te) = throw_phase(b, imm, fr.drop_last());
        let hex = fr.last();
        if stunned(b) == Some(hex) || !can_throw(b, hex as int) {
            (n, ts, te)
        } else {
            let around = climbable_spec(b, throw_origin(hex as int), hex as int);
            let src = throw_sources(b, imm, around);
            let tgt = throw_targets(b, around);
            (
                drop_seen(n + all_pairs(src, tgt), n.len() as int, n),
                ts.union(
                    if tgt.len() > 0 {
                        src.to_set()
                    } else {
                        Set::empty()
                    },
                ),
                te.union(
                    if src.len() > 0 {
                        tgt.to_set()
                    } else {
                        Set::empty()
                    },
                ),
            )
        }
    }
}

/// The moves of the piece on `hex` by its own type.
pub open spec fn piece_moves(b: Board, hex: int) -> Seq<Action> {
    match b.world@[hex].spec_ptype() {
        PieceType::Queen => moves_to(hex, slidable_spec(b, hex, hex)),
        PieceType::Grasshopper => jumps_upto(b, hex, 6),
        PieceType::Spider => moves_to(hex, walk3_spec(b, hex)),
        PieceType::Ant => moves_to(hex, walk_all_spec(b, hex)),
        PieceType::Beetle => moves_to(hex, slidable_spec(b, hex, hex)) + moves_to(
            hex,
            climbable_spec(b, hex, hex),
        ),
        PieceType::Mosquito => mosquito_spec(b, hex),
        PieceType::Ladybug => moves_to(hex, ladybug_spec(b, hex)),
        PieceType::Pillbug => moves_to(hex, slidable_spec(b, hex, hex)),
    }
}

/// Drops, from index `i` on, each movement ending in `te` that is one of the
/// throws `thr`, moving the last action into its place.
pub open spec fn drop_thrown(s: Seq<Action>, i: int, te: Set<Tile>, thr: Seq<Action>) -> Seq<Action>
    decreases s.len() - i,
{
    if i < 0 || i >= s.len() {
        s
    } else if s[i].spec_kind() is Move && te.contains(move_dest(s[i])) && thr.contains(s[i]) {
        drop_thrown(s.update(i, s.last()).drop_last(), i, te, thr)
    } else {
        drop_thrown(s, i + 1, te, thr)
    }
}

/// The throws `thr` followed by the moves of the pieces on the tiles of
/// `fr`: a stacked piece climbs, a piece in `imm` stays, any other moves by
/// its type, minus the movements a throw already gives.
pub open spec fn move_phase(
    b: Board,
    imm: Set<Tile>,
    fr: Seq<Tile>,
    ts: Set<Tile>,
    te: Set<Tile>,
    thr: Seq<Action>,
) -> Seq<Action>
    decreases fr.len(),
{
    if fr.len() == 0 {
        thr
    } else {
        let n = move_phase(b, imm, fr.drop_last(), ts, te, thr);
        let hex = fr.last();
        if b.height@[hex as int] > 1 {
            n + moves_to(hex as int, climbable_spec(b, hex as int, hex as int))
        } else if imm.contains(hex) {
            n
        } else if ts.contains(hex) {
            drop_thrown(n + piece_moves(b, hex as int), n.len() as int, te, thr)
        } else {
            n + piece_moves(b, hex as int)
        }
    }
}

/// The pieces that may not move: those in `cut`, and the piece moved on
/// the previous ply.
pub open spec fn pinned(b: Board, cut: Set<Tile>) -> Set<Tile> {
    match stunned(b) {
        Some(t) => cut.insert(t),
        None => cut,
    }
}

/// All movements of the player to move, given the tiles `cut` whose piece
/// would split the hive.
pub open spec fn movements_spec(b: Board, cut: Set<Tile>) -> Seq<Action> {
    let imm = pinned(b, cut);
    let fr = b.occupied_tiles[mover(b)].occupants@;
    let (thr, ts, te) = throw_phase(b, imm, fr);
    move_phase(b, imm, fr, ts, te, thr)
}

/// No tile is its own neighbour.
pub proof fn lemma_nb_ne(hex: int, i: int)
    requires
        0 <= hex < GRID_SIZE,
        0 <= i < 6,
    ensures
        nb(hex, i) != hex,
        0 <= nb(hex, i) < GRID_SIZE,
{
}

/// The player to move still has a piece in hand.
pub open spec fn any_in_hand(b: Board) -> bool {
    exists|i: int| 0 <= i < 8 && b.placeable[mover(b)][i] > 0
}

/// All legal moves of the player to move: in the first two plies the
/// opening placements; later the movements once the queen is down, then
/// the placements while pieces are in hand; a pass when there is nothing.
pub open spec fn moves_spec(b: Board) -> Seq<Action> {
    if b.turn_num < 2 {
        opening_spec(b)
    } else {
        let m = if b.placeable[mover(b)][0] == 0 {
            movements_spec(b, cut_spec(b))
        } else {
            Seq::empty()
        };
        let p = if any_in_hand(b) {
            placements_spec(b)
        } else {
            Seq::empty()
        };
        if (m + p).len() == 0 {
            seq![Action::spec_from_kind(ActionKind::Pass)]
        } else {
            m + p
        }
    }
}

/// The board has fewer than 254 pieces on top of stacks.
pub open spec fn few_pieces(b: Board) -> bool {
    b.occupied_tiles[0].occupants@.len() + b.occupied_tiles[1].occupants@.len() < 254
}

/// `a` can be played as generated: well formed, and a placement only of a
/// piece type the player to move has in hand.
pub open spec fn gen_ok(b: Board, a: Action) -> bool {
    &&& a.wf()
    &&& match a.spec_kind() {
        ActionKind::Place(_, p) => b.placeable[mover(b)][pct_index(p)] > 0,
        _ => true,
    }
}

/// Every action of `s` can be played as generated.
pub open spec fn all_gen_ok(b: Board, s: Seq<Action>) -> bool {
    forall|i: int| 0 <= i < s.len() ==> gen_ok(b, #[trigger] s[i])
}

/// The actions of `s` from index `k` on are well-formed movements.
pub open spec fn tail_moves(s: Seq<Action>, k: int) -> bool {
    forall|i: int| k <= i < s.len() ==> (#[trigger] s[i]).wf() && s[i].spec_kind() is Move
}

/// A list that extends `s` by movements keeps the movements of `s` from
/// index `k` on.
pub proof fn lemma_tail_extend(s: Seq<Action>, t: Seq<Action>, k: int)
    requires
        0 <= k <= s.len() <= t.len(),
        t.subrange(0, s.len() as int) == s,
        tail_moves(s, k),
        tail_moves(t, s.len() as int),
    ensures
        tail_moves(t, k),
{
    assert forall|i: int| k <= i < t.len() implies (#[trigger] t[i]).wf() && t[i].spec_kind() is Move by {
        if i < s.len() {
            assert(t[i] == t.subrange(0, s.len() as int)[i]);
        }
    }
}

/// Dropping repeated destinations leaves each destination at most once
/// and never touches the part before `i`, given that the destinations
/// before `i` are distinct and are those in `seen`.
pub proof fn lemma_swap_dedup_distinct(s: Seq<Action>, i: int, seen: Set<Tile>)
    requires
        0 <= i,
        forall|k: int| 0 <= k < i && k < s.len() ==> seen.contains(move_dest(#[trigger] s[k])),
        forall|k1: int, k2: int|
            0 <= k1 < k2 < i && k2 < s.len() ==> move_dest(#[trigger] s[k1]) != move_dest(#[trigger] s[k2]),
    ensures
        forall|k1: int, k2: int|
            0 <= k1 < k2 < swap_dedup(s, i, seen).len() ==> move_dest(#[trigger] swap_dedup(s, i, seen)[k1])
                != move_dest(#[trigger] swap_dedup(s, i, seen)[k2]),
        swap_dedup(s, i, seen).len() <= s.len(),
    decreases s.len() - i,
{
    if i < 0 || i >= s.len() {
    } else if seen.contains(move_dest(s[i])) {
        let s2 = s.update(i, s.last()).drop_last();
        assert forall|k: int| 0 <= k < i && k < s2.len() implies seen.contains(move_dest(#[trigger] s2[k])) by {
            assert(s2[k] == s[k]);
        }
        assert forall|k1: int, k2: int| 0 <= k1 < k2 < i && k2 < s2.len() implies move_dest(#[trigger] s2[k1])
            != move_dest(#[trigger] s2[k2]) by {
            assert(s2[k1] == s[k1] && s2[k2] == s[k2]);
        }
        lemma_swap_dedup_distinct(s2, i, seen);
    } else {
        let seen2 = seen.insert(move_dest(s[i]));
        assert forall|k1: int, k2: int| 0 <= k1 < k2 < i + 1 && k2 < s.len() implies move_dest(#[trigger] s[k1])
            != move_dest(#[trigger] s[k2]) by {
            if k2 == i {
                assert(seen.contains(move_dest(s[k1])));
            }
        }
        lemma_swap_dedup_distinct(s, i + 1, seen2);
    }
}

/// A mosquito never gets two moves to the same tile.
pub proof fn lemma_mosquito_distinct(b: Board, hex: int)
    ensures
        forall|k1: int, k2: int|
            0 <= k1 < k2 < mosquito_spec(b, hex).len() ==> move_dest(#[trigger] mosquito_spec(b, hex)[k1])
                != move_dest(#[trigger] mosquito_spec(b, hex)[k2]),
{
    lemma_swap_dedup_distinct(mosquito_raw(b, hex), 0, Set::empty());
}

impl Board {

    /// Movements from `from` to each tile of `dests`, appended to `turns`.
    fn push_moves(from: Tile, dests: &Vec<Tile>, turns: &mut Vec<Action>)
        requires
            from < GRID_SIZE,
            forall|i: int| 0 <= i < dests@.len() ==> dests@[i] < GRID_SIZE,
        ensures
            final(turns)@ == old(turns)@ + moves_to(from as int, dests@),
            tail_moves(final(turns)@, old(turns)@.len() as int),
    {
        let ghost t0 = turns@;
        let mut i: usize = 0;
        while i < dests.len()
            invariant
                0 <= i <= dests@.len(),
                from < GRID_SIZE,
                forall|j: int| 0 <= j < dests@.len() ==> dests@[j] < GRID_SIZE,
                turns@ == t0 + moves_to(from as int, dests@.subrange(0, i as int)),
                tail_moves(turns@, t0.len() as int),
            decreases dests@.len() - i,
        {
            turns.push(Action::Move(from, dests[i]));
            i += 1;
            assert(moves_to(from as int, dests@.subrange(0, i as int)) =~= moves_to(
                from as int,
                dests@.subrange(0, i - 1 as int),
            ).push(mv(from as int, dests@[i - 1] as int)));
        }
        assert(dests@.subrange(0, i as int) =~= dests@);
    }

    /// Appends to `out` the tiles of `list` not yet in `visited`, each once,
    /// and adds the tiles of `list` to `visited`.
    fn collect_new(list: &Vec<Tile>, visited: &mut TileSet, out: &mut Vec<Tile>)
        requires
            forall|i: int| 0 <= i < list@.len() ==> list@[i] < GRID_SIZE,
            forall|i: int| 0 <= i < old(out)@.len() ==> old(out)@[i] < GRID_SIZE,
        ensures
            final(out)@ == old(out)@ + dedup(list@, old(visited).members()),
            final(visited).members() == old(visited).members().union(list@.to_set()),
            forall|i: int| 0 <= i < final(out)@.len() ==> final(out)@[i] < GRID_SIZE,
    {
        let ghost o0 = out@;
        let ghost v0 = visited.members();
        let mut i: usize = 0;
        while i < list.len()
            invariant
                0 <= i <= list@.len(),
                forall|j: int| 0 <= j < list@.len() ==> list@[j] < GRID_SIZE,
                out@ == o0 + dedup(list@.subrange(0, i as int), v0),
                forall|j: int| 0 <= j < out@.len() ==> out@[j] < GRID_SIZE,
                visited.members() == v0.union(list@.subrange(0, i as int).to_set()),
            decreases list@.len() - i,
        {
            let x = list[i];
            let ghost pre = list@.subrange(0, i as int);
            let ghost vm = visited.members();
            proof {
                assert(list@.subrange(0, i + 1) =~= pre.push(x));
                lemma_dedup_push(pre, v0, x);
                pre.lemma_push_to_set_commute(x);
                assert(visited.members().contains(x) == visited.has(x as int));
            }
            if !visited.get(x) {
                out.push(x);
                visited.set(x);
            }
            assert forall|t: Tile| #[trigger] visited.members().contains(t) == vm.insert(x).contains(t) by {
                assert(visited.members().contains(t) == visited.has(t as int));
            }
            assert(visited.members() =~= vm.insert(x));
            i += 1;
            assert(visited.members() =~= v0.union(list@.subrange(0, i as int).to_set()));
            assert(out@ =~= o0 + dedup(list@.subrange(0, i as int), v0));
        }
        assert(list@.subrange(0, i as int) =~= list@);
    }

    /// Movements from `orig` to the tiles of `list` not yet in `visited`,
    /// each once; the tiles of `list` are added to `visited`.
    fn visit_dests(orig: Tile, list: &Vec<Tile>, visited: &mut TileSet, turns: &mut Vec<Action>)
        requires
            orig < GRID_SIZE,
            forall|i: int| 0 <= i < list@.len() ==> list@[i] < GRID_SIZE,
        ensures
            final(turns)@ == old(turns)@ + moves_to(
                orig as int,
                dedup(list@, old(visited).members()),
            ),
            final(visited).members() == old(visited).members().union(list@.to_set()),
            tail_moves(final(turns)@, old(turns)@.len() as int),
    {
        let mut fresh: Vec<Tile> = Vec::new();
        Self::collect_new(list, visited, &mut fresh);
        assert(fresh@ =~= dedup(list@, old(visited).members()));
        Self::push_moves(orig, &fresh, turns);
    }

    /// The tiles of `list` other than `skip`.
    fn without_tile(list: &Vec<Tile>, skip: Tile) -> (r: Vec<Tile>)
        requires
            forall|i: int| 0 <= i < list@.len() ==> list@[i] < GRID_SIZE,
        ensures
            r@ == without(list@, skip as int),
            forall|i: int| 0 <= i < r@.len() ==> r@[i] < GRID_SIZE,
    {
        let mut r: Vec<Tile> = Vec::new();
        let mut i: usize = 0;
        while i < list.len()
            invariant
                0 <= i <= list@.len(),
                forall|j: int| 0 <= j < list@.len() ==> list@[j] < GRID_SIZE,
                r@ == without(list@.subrange(0, i as int), skip as int),
                forall|j: int| 0 <= j < r@.len() ==> r@[j] < GRID_SIZE,
            decreases list@.len() - i,
        {
            proof {
                assert(list@.subrange(0, i + 1) =~= list@.subrange(0, i as int).push(list@[i as int]));
                lemma_without_push(list@.subrange(0, i as int), list@[i as int], skip as int);
            }
            if list[i] != skip {
                r.push(list[i]);
            }
            i += 1;
        }
        assert(list@.subrange(0, i as int) =~= list@);
        r
    }

    /// The tiles of `list` that hold a piece (`want` true) or are free.
    fn with_occupancy(&self, list: &Vec<Tile>, want: bool) -> (r: Vec<Tile>)
        requires
            self.wf(),
            forall|i: int| 0 <= i < list@.len() ==> list@[i] < GRID_SIZE,
        ensures
            r@ == with_occ(*self, list@, want),
            forall|i: int| 0 <= i < r@.len() ==> r@[i] < GRID_SIZE,
    {
        let mut r: Vec<Tile> = Vec::new();
        let mut i: usize = 0;
        while i < list.len()
            invariant
                self.wf(),
                0 <= i <= list@.len(),
                forall|j: int| 0 <= j < list@.len() ==> list@[j] < GRID_SIZE,
                r@ == with_occ(*self, list@.subrange(0, i as int), want),
                forall|j: int| 0 <= j < r@.len() ==> r@[j] < GRID_SIZE,
            decreases list@.len() - i,
        {
            proof {
                assert(list@.subrange(0, i + 1) =~= list@.subrange(0, i as int).push(list@[i as int]));
                lemma_with_occ_push(*self, list@.subrange(0, i as int), list@[i as int], want);
            }
            if self.occupied(list[i]) == want {
                r.push(list[i]);
            }
            i += 1;
        }
        assert(list@.subrange(0, i as int) =~= list@);
        r
    }

    /// Spider moves from `orig`: three slides that never step back, to
    /// tiles other than `orig`, each destination once.
    fn generate_walk3(&self, orig: Tile, turns: &mut Vec<Action>)
        requires
            self.wf(),
            orig < GRID_SIZE,
        ensures
            final(turns)@ == old(turns)@ + moves_to(orig as int, walk3_spec(*self, orig as int)),
            tail_moves(final(turns)@, old(turns)@.len() as int),
    {
        let ghost t0 = turns@;
        let ghost seen0 = Set::<Tile>::empty().insert(orig);
        let mut visited = TileSet::new();
        visited.set(orig);
        assert(visited.members() =~= seen0);
        let l1 = self.slidable_adjacent(orig, orig);
        let ghost mut c: Seq<Tile> = Seq::empty();
        assert(dedup(c, seen0) =~= Seq::<Tile>::empty());
        assert(seen0.union(c.to_set()) =~= seen0);
        assert(t0 + moves_to(orig as int, dedup(c, seen0)) =~= t0);
        let mut k1: usize = 0;
        while k1 < l1.len()
            invariant
                self.wf(),
                orig < GRID_SIZE,
                0 <= k1 <= l1@.len(),
                l1@ == slidable_spec(*self, orig as int, orig as int),
                forall|j: int| 0 <= j < l1@.len() ==> l1@[j] < GRID_SIZE,
                c == walk3_outer(*self, orig as int, k1 as int),
                turns@ == t0 + moves_to(orig as int, dedup(c, seen0)),
                tail_moves(turns@, t0.len() as int),
                visited.members() == seen0.union(c.to_set()),
            decreases l1@.len() - k1,
        {
            let s1 = l1[k1];
            let l2 = self.slidable_adjacent(orig, s1);
            let ghost c_outer = c;
            let mut k2: usize = 0;
            assert(c =~= c_outer + walk3_mid(*self, orig as int, s1 as int, 0));
            while k2 < l2.len()
                invariant
                    self.wf(),
                    orig < GRID_SIZE,
                    0 <= k2 <= l2@.len(),
                    l2@ == slidable_spec(*self, orig as int, s1 as int),
                    forall|j: int| 0 <= j < l2@.len() ==> l2@[j] < GRID_SIZE,
                    s1 < GRID_SIZE,
                    c == c_outer + walk3_mid(*self, orig as int, s1 as int, k2 as int),
                    turns@ == t0 + moves_to(orig as int, dedup(c, seen0)),
                    tail_moves(turns@, t0.len() as int),
                    visited.members() == seen0.union(c.to_set()),
                decreases l2@.len() - k2,
            {
                let s2 = l2[k2];
                let ghost c_before = c;
                if s2 != orig {
                    let l3a = self.slidable_adjacent(orig, s2);
                    let l3 = Self::without_tile(&l3a, s1);
                    let ghost tb = turns@;
                    Self::visit_dests(orig, &l3, &mut visited, turns);
                    proof {
                        assert(turns@.subrange(0, tb.len() as int) =~= tb);
                        lemma_tail_extend(tb, turns@, t0.len() as int);
                        lemma_dedup_concat(c_before, l3@, seen0);
                        c = c_before + l3@;
                        assert(seen0.union(c_before.to_set()).union(l3@.to_set()) =~= seen0.union(c.to_set())) by {
                            assert forall|x: Tile| c.contains(x) <==> (c_before.contains(x) || l3@.contains(x)) by {
                                if c.contains(x) {
                                    let j = choose|j: int| 0 <= j < c.len() && c[j] == x;
                                    if j < c_before.len() {
                                        assert(c_before[j] == x);
                                    } else {
                                        assert(l3@[j - c_before.len()] == x);
                                    }
                                }
                                if c_before.contains(x) {
                                    let j = choose|j: int| 0 <= j < c_before.len() && c_before[j] == x;
                                    assert(c[j] == x);
                                }
                                if l3@.contains(x) {
                                    let j = choose|j: int| 0 <= j < l3@.len() && l3@[j] == x;
                                    assert(c[j + c_before.len()] == x);
                                }
                            }
                        }
                        assert(moves_to(orig as int, dedup(c_before, seen0) + dedup(l3@, seen0.union(c_before.to_set())))
                            =~= moves_to(orig as int, dedup(c_before, seen0)) + moves_to(orig as int, dedup(l3@, seen0.union(c_before.to_set()))));
                    }
                }
                proof {
                    assert(walk3_mid(*self, orig as int, s1 as int, k2 as int + 1)
                        == walk3_mid(*self, orig as int, s1 as int, k2 as int) + walk3_inner(*self, orig as int, s1 as int, s2 as int));
                    if s2 == orig {
                        assert(walk3_inner(*self, orig as int, s1 as int, s2 as int) =~= Seq::<Tile>::empty());
                        assert(c =~= c_outer + walk3_mid(*self, orig as int, s1 as int, k2 as int + 1));
                    } else {
                        assert(c =~= c_outer + walk3_mid(*self, orig as int, s1 as int, k2 as int + 1));
                    }
                }
                k2 += 1;
            }
            k1 += 1;
        }
    }

    /// Ladybug moves from `hex`: two climbing steps on top of the hive, then
    /// one step down to a free tile, each destination once.
    fn generate_ladybug(&self, hex: Tile, turns: &mut Vec<Action>)
        requires
            self.wf(),
            hex < GRID_SIZE,
            self.height@[hex as int] > 0,
        ensures
            final(turns)@ == old(turns)@ + moves_to(hex as int, ladybug_spec(*self, hex as int)),
            tail_moves(final(turns)@, old(turns)@.len() as int),
    {
        let l1a = self.slidable_adjacent_beetle(hex, hex);
        let l1 = self.with_occupancy(&l1a, true);
        let mut step2 = TileSet::new();
        let ghost e = Set::<Tile>::empty();
        assert(step2.members() =~= e);
        let mut mids: Vec<Tile> = Vec::new();
        let ghost mut c: Seq<Tile> = Seq::empty();
        assert(e.union(c.to_set()) =~= e);
        let mut k1: usize = 0;
        while k1 < l1.len()
            invariant
                self.wf(),
                hex < GRID_SIZE,
                self.height@[hex as int] > 0,
                0 <= k1 <= l1@.len(),
                l1@ == with_occ(*self, climbable_spec(*self, hex as int, hex as int), true),
                forall|j: int| 0 <= j < l1@.len() ==> l1@[j] < GRID_SIZE,
                c == ladybug_s2(*self, hex as int, k1 as int),
                mids@ == dedup(c, e),
                forall|j: int| 0 <= j < mids@.len() ==> mids@[j] < GRID_SIZE,
                step2.members() == e.union(c.to_set()),
            decreases l1@.len() - k1,
        {
            let l2a = self.slidable_adjacent_beetle(hex, l1[k1]);
            let l2 = self.with_occupancy(&l2a, true);
            let ghost c0 = c;
            Self::collect_new(&l2, &mut step2, &mut mids);
            proof {
                lemma_dedup_concat(c0, l2@, e);
                c = c0 + l2@;
                assert forall|x: Tile| #[trigger] c.contains(x) <==> (c0.contains(x) || l2@.contains(x)) by {
                    if c.contains(x) {
                        let j = choose|j: int| 0 <= j < c.len() && c[j] == x;
                        if j < c0.len() {
                            assert(c0[j] == x);
                        } else {
                            assert(l2@[j - c0.len()] == x);
                        }
                    }
                    if c0.contains(x) {
                        let j = choose|j: int| 0 <= j < c0.len() && c0[j] == x;
                        assert(c[j] == x);
                    }
                    if l2@.contains(x) {
                        let j = choose|j: int| 0 <= j < l2@.len() && l2@[j] == x;
                        assert(c[j + c0.len()] == x);
                    }
                }
                assert(step2.members() =~= e.union(c.to_set()));
                assert(mids@ =~= dedup(c, e));
            }
            k1 += 1;
        }
        let ghost t0 = turns@;
        let mut step3 = TileSet::new();
        assert(step3.members() =~= e);
        let ghost mut d: Seq<Tile> = Seq::empty();
        assert(t0 + moves_to(hex as int, dedup(d, e)) =~= t0);
        let mut k: usize = 0;
        while k < mids.len()
            invariant
                self.wf(),
                hex < GRID_SIZE,
                self.height@[hex as int] > 0,
                0 <= k <= mids@.len(),
                mids@ == ladybug_mid(*self, hex as int),
                forall|j: int| 0 <= j < mids@.len() ==> mids@[j] < GRID_SIZE,
                d == ladybug_s3(*self, hex as int, mids@, k as int),
                turns@ == t0 + moves_to(hex as int, dedup(d, e)),
                tail_moves(turns@, t0.len() as int),
                step3.members() == e.union(d.to_set()),
            decreases mids@.len() - k,
        {
            let l3a = self.slidable_adjacent_beetle(hex, mids[k]);
            let l3 = self.with_occupancy(&l3a, false);
            let ghost d0 = d;
            let ghost tb = turns@;
            Self::visit_dests(hex, &l3, &mut step3, turns);
            proof {
                assert(turns@.subrange(0, tb.len() as int) =~= tb);
                lemma_tail_extend(tb, turns@, t0.len() as int);
                lemma_dedup_concat(d0, l3@, e);
                d = d0 + l3@;
                assert forall|x: Tile| #[trigger] d.contains(x) <==> (d0.contains(x) || l3@.contains(x)) by {
                    if d.contains(x) {
                        let j = choose|j: int| 0 <= j < d.len() && d[j] == x;
                        if j < d0.len() {
                            assert(d0[j] == x);
                        } else {
                            assert(l3@[j - d0.len()] == x);
                        }
                    }
                    if d0.contains(x) {
                        let j = choose|j: int| 0 <= j < d0.len() && d0[j] == x;
                        assert(d[j] == x);
                    }
                    if l3@.contains(x) {
                        let j = choose|j: int| 0 <= j < l3@.len() && l3@[j] == x;
                        assert(d[j + d0.len()] == x);
                    }
                }
                assert(step3.members() =~= e.union(d.to_set()));
                assert(moves_to(hex as int, dedup(d0, e) + dedup(l3@, e.union(d0.to_set())))
                    =~= moves_to(hex as int, dedup(d0, e)) + moves_to(hex as int, dedup(l3@, e.union(d0.to_set()))));
                assert(turns@ =~= t0 + moves_to(hex as int, dedup(d, e)));
            }
            k += 1;
        }
    }

    /// Ant moves from `orig`: every tile reachable by sliding, in the order
    /// of a depth-first walk.
    fn generate_walk_all(&self, orig: Tile, turns: &mut Vec<Action>)
        requires
            self.wf(),
            orig < GRID_SIZE,
        ensures
            final(turns)@ == old(turns)@ + moves_to(orig as int, walk_all_spec(*self, orig as int)),
            tail_moves(final(turns)@, old(turns)@.len() as int),
    {
        let ghost t0 = turns@;
        let ghost init: WalkState = (seq![orig], Set::empty(), Seq::empty());
        let mut visited = TileSet::new();
        let mut stack: Vec<Tile> = Vec::new();
        stack.push(orig);
        let mut out: Vec<Tile> = Vec::new();
        let ghost mut fuel: nat = walk_fuel();
        proof {
            assert(stack@ =~= init.0);
            assert(visited.members() =~= init.1);
            lemma_unvisited_count_insert(Set::empty(), 0, GRID_SIZE as int);
            assert forall|n: int| 0 <= n <= GRID_SIZE implies unvisited_count(Set::<Tile>::empty(), n) == n by {
                lemma_count_empty(n);
            }
        }
        while stack.len() > 0
            invariant
                self.wf(),
                orig < GRID_SIZE,
                forall|j: int| 0 <= j < stack@.len() ==> stack@[j] < GRID_SIZE,
                forall|j: int| 0 <= j < out@.len() ==> out@[j] < GRID_SIZE,
                walk_run(*self, orig as int, (stack@, visited.members(), out@), fuel)
                    == walk_run(*self, orig as int, init, walk_fuel()),
                walk_measure((stack@, visited.members(), out@)) <= fuel,
                0 <= unvisited_count(visited.members(), GRID_SIZE as int),
            decreases walk_measure((stack@, visited.members(), out@)),
        {
            let ghost st: WalkState = (stack@, visited.members(), out@);
            let node = stack.pop().unwrap();
            assert(node == st.0.last());
            assert(stack@ =~= st.0.drop_last());
            proof {
                assert(visited.members().contains(node) == visited.has(node as int));
            }
            if !visited.get(node) {
                proof {
                    lemma_unvisited_count_insert(visited.members(), node, GRID_SIZE as int);
                }
                let ghost vm = visited.members();
                visited.set(node);
                assert forall|t: Tile| #[trigger] visited.members().contains(t) == vm.insert(node).contains(t) by {
                    assert(visited.members().contains(t) == visited.has(t as int));
                }
                assert(visited.members() =~= vm.insert(node));
                if node != orig {
                    out.push(node);
                }
                let nbrs = self.slidable_adjacent(orig, node);
                let ghost s0 = stack@;
                let mut j: usize = 0;
                while j < nbrs.len()
                    invariant
                        0 <= j <= nbrs@.len(),
                        forall|k: int| 0 <= k < nbrs@.len() ==> nbrs@[k] < GRID_SIZE,
                        forall|k: int| 0 <= k < s0.len() ==> s0[k] < GRID_SIZE,
                        stack@ == s0 + unvisited_of(nbrs@.subrange(0, j as int), visited.members()),
                        forall|k: int| 0 <= k < stack@.len() ==> stack@[k] < GRID_SIZE,
                    decreases nbrs@.len() - j,
                {
                    let adj = nbrs[j];
                    proof {
                        assert(nbrs@.subrange(0, j + 1) =~= nbrs@.subrange(0, j as int).push(adj));
                        lemma_unvisited_push(nbrs@.subrange(0, j as int), visited.members(), adj);
                        assert(visited.members().contains(adj) == visited.has(adj as int));
                    }
                    if !visited.get(adj) {
                        stack.push(adj);
                    }
                    j += 1;
                    assert(stack@ =~= s0 + unvisited_of(nbrs@.subrange(0, j as int), visited.members()));
                }
                proof {
                    assert(nbrs@.subrange(0, j as int) =~= nbrs@);
                    lemma_unvisited_push(nbrs@, visited.members(), 0);
                    lemma_slidable_len(*self, orig as int, node as int, 6);
                }
            }
            proof {
                lemma_unvisited_count_bounds(visited.members(), GRID_SIZE as int);
                assert((stack@, visited.members(), out@) == walk_step(*self, orig as int, st));
                fuel = (fuel - 1) as nat;
            }
        }
        proof {
            assert(walk_run(*self, orig as int, (stack@, visited.members(), out@), fuel) == (stack@, visited.members(), out@));
        }
        Self::push_moves(orig, &out, turns);
    }

    /// Pillbug throws around `hex`: each adjacent lone piece not in
    /// `immovable` to each adjacent free tile. Records the starts and ends
    /// of the throws in `throw_starts` and `throw_ends`.
    fn generate_throws(
        &self,
        immovable: &TileSet,
        hex: Tile,
        turns: &mut Vec<Action>,
        throw_starts: &mut TileSet,
        throw_ends: &mut TileSet,
    )
        requires
            self.wf(),
            hex < GRID_SIZE,
            self.height@[hex as int] > 0,
        ensures
            final(turns)@ == old(turns)@ + throws_spec(*self, immovable.members(), hex as int),
            final(throw_starts).members() == old(throw_starts).members().union(
                if throw_targets(*self, climbable_spec(*self, throw_origin(hex as int), hex as int)).len() > 0 {
                    throw_sources(*self, immovable.members(), climbable_spec(*self, throw_origin(hex as int), hex as int)).to_set()
                } else {
                    Set::empty()
                }),
            final(throw_ends).members() == old(throw_ends).members().union(
                if throw_sources(*self, immovable.members(), climbable_spec(*self, throw_origin(hex as int), hex as int)).len() > 0 {
                    throw_targets(*self, climbable_spec(*self, throw_origin(hex as int), hex as int)).to_set()
                } else {
                    Set::empty()
                }),
            tail_moves(final(turns)@, old(turns)@.len() as int),
    {
        let origin = tile_add(tile_add(hex, Direction::NW), Direction::NW);
        let nbrs = self.slidable_adjacent_beetle(origin, hex);
        let ghost n = nbrs@;
        let ghost imm = immovable.members();
        let mut starts: Vec<Tile> = Vec::new();
        let mut ends: Vec<Tile> = Vec::new();
        let mut i: usize = 0;
        while i < nbrs.len()
            invariant
                self.wf(),
                0 <= i <= n.len(),
                nbrs@ == n,
                forall|j: int| 0 <= j < n.len() ==> n[j] < GRID_SIZE,
                imm == immovable.members(),
                starts@ == throw_sources(*self, imm, n.subrange(0, i as int)),
                ends@ == throw_targets(*self, n.subrange(0, i as int)),
                forall|j: int| 0 <= j < starts@.len() ==> starts@[j] < GRID_SIZE,
                forall|j: int| 0 <= j < ends@.len() ==> ends@[j] < GRID_SIZE,
            decreases n.len() - i,
        {
            let adj = nbrs[i];
            let ghost pre = n.subrange(0, i as int);
            assert(n.subrange(0, i + 1).drop_last() =~= pre);
            assert(immovable.members().contains(adj) == immovable.has(adj as int));
            let h = self.height(adj);
            if h == 0 {
                ends.push(adj);
            } else if h == 1 {
                if !immovable.get(adj) {
                    starts.push(adj);
                }
            }
            i += 1;
        }
        assert(n.subrange(0, i as int) =~= n);
        let ghost t0 = turns@;
        let ghost s0 = throw_starts.members();
        let ghost e0 = throw_ends.members();
        let ghost sa = starts@;
        let ghost ea = ends@;
        let mut k: usize = 0;
        assert(t0 + all_pairs(sa.subrange(0, 0), ea) =~= t0);
        assert(s0.union(Set::empty()) =~= s0);
        assert(e0.union(Set::empty()) =~= e0);
        while k < starts.len()
            invariant
                0 <= k <= sa.len(),
                starts@ == sa,
                ends@ == ea,
                forall|j: int| 0 <= j < sa.len() ==> sa[j] < GRID_SIZE,
                forall|j: int| 0 <= j < ea.len() ==> ea[j] < GRID_SIZE,
                turns@ == t0 + all_pairs(sa.subrange(0, k as int), ea),
                tail_moves(turns@, t0.len() as int),
                throw_starts.members() == s0.union(if ea.len() > 0 {
                    sa.subrange(0, k as int).to_set()
                } else {
                    Set::empty()
                }),
                throw_ends.members() == e0.union(if k > 0 {
                    ea.to_set()
                } else {
                    Set::empty()
                }),
            decreases sa.len() - k,
        {
            let start = starts[k];
            let ghost tk = turns@;
            let ghost sk = throw_starts.members();
            let ghost ek = throw_ends.members();
            let mut j: usize = 0;
            assert(tk + moves_to(start as int, ea.subrange(0, 0)) =~= tk);
            assert(ek.union(ea.subrange(0, 0).to_set()) =~= ek);
            while j < ends.len()
                invariant
                    0 <= j <= ea.len(),
                    k < sa.len(),
                    start == sa[k as int],
                    starts@ == sa,
                    ends@ == ea,
                    start < GRID_SIZE,
                    forall|m: int| 0 <= m < ea.len() ==> ea[m] < GRID_SIZE,
                    turns@ == tk + moves_to(start as int, ea.subrange(0, j as int)),
                    tk.len() >= t0.len(),
                    tail_moves(turns@, t0.len() as int),
                    throw_starts.members() == if j > 0 {
                        sk.insert(start)
                    } else {
                        sk
                    },
                    throw_ends.members() == ek.union(ea.subrange(0, j as int).to_set()),
                decreases ea.len() - j,
            {
                let end = ends[j];
                let ghost ts = throw_starts.members();
                let ghost te = throw_ends.members();
                turns.push(Action::Move(start, end));
                throw_starts.set(start);
                throw_ends.set(end);
                assert forall|t: Tile| #[trigger] throw_starts.members().contains(t) == ts.insert(start).contains(t) by {
                    assert(throw_starts.members().contains(t) == throw_starts.has(t as int));
                }
                assert forall|t: Tile| #[trigger] throw_ends.members().contains(t) == te.insert(end).contains(t) by {
                    assert(throw_ends.members().contains(t) == throw_ends.has(t as int));
                }
                proof {
                    ea.subrange(0, j as int).lemma_push_to_set_commute(end);
                    assert(ea.subrange(0, j + 1) =~= ea.subrange(0, j as int).push(end));
                }
                j += 1;
                assert(throw_starts.members() =~= sk.insert(start));
                assert(throw_ends.members() =~= ek.union(ea.subrange(0, j as int).to_set()));
                assert(turns@ =~= tk + moves_to(start as int, ea.subrange(0, j as int)));
            }
            proof {
                assert(ea.subrange(0, j as int) =~= ea);
                assert(sa.subrange(0, k + 1).drop_last() =~= sa.subrange(0, k as int));
                sa.subrange(0, k as int).lemma_push_to_set_commute(start);
                assert(sa.subrange(0, k + 1) =~= sa.subrange(0, k as int).push(start));
            }
            k += 1;
            assert(turns@ =~= t0 + all_pairs(sa.subrange(0, k as int), ea));
            assert(throw_starts.members() =~= s0.union(if ea.len() > 0 {
                sa.subrange(0, k as int).to_set()
            } else {
                Set::empty()
            }));
            assert(throw_ends.members() =~= e0.union(if k > 0 {
                ea.to_set()
            } else {
                Set::empty()
            }));
        }
        assert(sa.subrange(0, k as int) =~= sa);
    }

    /// Mosquito moves from `hex`: the moves of each piece type next to it,
    /// one movement per destination.
    fn generate_mosquito(&self, hex: Tile, turns: &mut Vec<Action>)
        requires
            self.wf(),
            hex < GRID_SIZE,
            self.height@[hex as int] > 0,
        ensures
            final(turns)@ == old(turns)@ + mosquito_spec(*self, hex as int),
            tail_moves(final(turns)@, old(turns)@.len() as int),
    {
        let nbrs = adjacent(hex);
        let mut targets = [false; 8];
        let mut i: usize = 0;
        while i < 6
            invariant
                self.wf(),
                0 <= i <= 6,
                forall|j: int| 0 <= j < 6 ==> nbrs@[j] == #[trigger] nb(hex as int, j),
                forall|j: int| 0 <= j < 6 ==> nbrs@[j] < GRID_SIZE,
                forall|j: int| 0 <= j < 8 ==> targets@[j] == touches_upto(*self, hex as int, pct_from_index(j), i as int),
            decreases 6 - i,
        {
            let node = self.tile(nbrs[i]);
            if node.is_some() {
                let p = node.ptype();
                proof {
                    lemma_pct_roundtrip(p);
                }
                targets[p.index()] = true;
                assert forall|j: int| 0 <= j < 8 implies (pct_from_index(j) == p <==> j == pct_index(p)) by {
                    if pct_from_index(j) == p {
                        assert(pct_index(pct_from_index(j)) == j);
                    }
                }
            }
            i += 1;
        }
        let mut raw: Vec<Action> = Vec::new();
        assert(tail_moves(raw@, 0));
        if targets[3] {
            let ghost rp = raw@;
            self.generate_walk_all(hex, &mut raw);
            proof {
                assert(raw@.subrange(0, rp.len() as int) =~= rp);
                lemma_tail_extend(rp, raw@, 0);
            }
        } else {
            if targets[0] || targets[4] || targets[7] {
                let ghost rp = raw@;
                self.generate_walk1(hex, &mut raw);
                proof {
                    assert(raw@.subrange(0, rp.len() as int) =~= rp);
                    lemma_tail_extend(rp, raw@, 0);
                }
            }
            if targets[2] {
                let ghost rp = raw@;
                self.generate_walk3(hex, &mut raw);
                proof {
                    assert(raw@.subrange(0, rp.len() as int) =~= rp);
                    lemma_tail_extend(rp, raw@, 0);
                }
            }
        }
        if targets[1] {
            let ghost rp = raw@;
            self.generate_jumps(hex, &mut raw);
            proof {
                assert(raw@.subrange(0, rp.len() as int) =~= rp);
                lemma_tail_extend(rp, raw@, 0);
            }
        }
        if targets[4] {
            let ghost rp = raw@;
            self.generate_stack_walking(hex, &mut raw);
            proof {
                assert(raw@.subrange(0, rp.len() as int) =~= rp);
                lemma_tail_extend(rp, raw@, 0);
            }
        }
        if targets[6] {
            let ghost rp = raw@;
            self.generate_ladybug(hex, &mut raw);
            proof {
                assert(raw@.subrange(0, rp.len() as int) =~= rp);
                lemma_tail_extend(rp, raw@, 0);
            }
        }
        assert(raw@ =~= mosquito_raw(*self, hex as int));
        let ghost r0 = raw@;
        let mut dests = TileSet::new();
        assert(dests.members() =~= Set::<Tile>::empty());
        let mut k: usize = 0;
        while k < raw.len()
            invariant
                0 <= k <= raw@.len(),
                swap_dedup(raw@, k as int, dests.members()) == swap_dedup(r0, 0, Set::empty()),
                tail_moves(raw@, 0),
            decreases raw@.len() - k,
        {
            let dest = raw[k].move_to();
            let ghost rb = raw@;
            assert(dests.members().contains(dest) == dests.has(dest as int));
            if dests.get(dest) {
                raw.swap_remove(k);
                assert forall|i: int| 0 <= i < raw@.len() implies (#[trigger] raw@[i]).wf() && raw@[i].spec_kind() is Move by {
                    if i == k {
                        assert(raw@[i] == rb[rb.len() - 1]);
                    } else {
                        assert(raw@[i] == rb[i]);
                    }
                }
            } else {
                let ghost dm = dests.members();
                dests.set(dest);
                assert forall|t: Tile| #[trigger] dests.members().contains(t) == dm.insert(dest).contains(t) by {
                    assert(dests.members().contains(t) == dests.has(t as int));
                }
                assert(dests.members() =~= dm.insert(dest));
                k += 1;
            }
        }
        let ghost tb = turns@;
        let ghost raw_final = raw@;
        turns.append(&mut raw);
        assert forall|i: int| tb.len() <= i < turns@.len() implies (#[trigger] turns@[i]).wf() && turns@[i].spec_kind() is Move by {
            assert(turns@[i] == raw_final[i - tb.len()]);
        }
    }

    /// The six neighbours of `t`.
    fn nbr_vec(t: Tile) -> (r: Vec<Tile>)
        ensures
            r@ == nbr_tiles(t as int),
            forall|i: int| 0 <= i < r@.len() ==> r@[i] < GRID_SIZE,
    {
        let a = adjacent(t);
        let mut r: Vec<Tile> = Vec::new();
        let mut i: usize = 0;
        while i < 6
            invariant
                0 <= i <= 6,
                forall|j: int| 0 <= j < 6 ==> a@[j] == #[trigger] nb(t as int, j),
                forall|j: int| 0 <= j < 6 ==> a@[j] < GRID_SIZE,
                r@ == nbr_tiles(t as int).subrange(0, i as int),
                forall|j: int| 0 <= j < r@.len() ==> r@[j] < GRID_SIZE,
            decreases 6 - i,
        {
            r.push(a[i]);
            i += 1;
            assert(r@ =~= nbr_tiles(t as int).subrange(0, i as int));
        }
        assert(nbr_tiles(t as int).subrange(0, 6) =~= nbr_tiles(t as int));
        r
    }

    /// Adds the neighbours of each tile of `tiles` to `seen`; appends to
    /// `out` those not seen before, each once.
    fn collect_neighbours(tiles: &Vec<Tile>, seen: &mut TileSet, out: &mut Vec<Tile>)
        requires
            forall|i: int| 0 <= i < old(out)@.len() ==> old(out)@[i] < GRID_SIZE,
        ensures
            final(out)@ == old(out)@ + dedup(nbrs_all(tiles@), old(seen).members()),
            final(seen).members() == old(seen).members().union(nbrs_all(tiles@).to_set()),
            forall|i: int| 0 <= i < final(out)@.len() ==> final(out)@[i] < GRID_SIZE,
    {
        let ghost o0 = out@;
        let ghost v0 = seen.members();
        let mut k: usize = 0;
        assert(nbrs_all(tiles@.subrange(0, 0)) =~= Seq::<Tile>::empty());
        assert(dedup(Seq::<Tile>::empty(), v0) =~= Seq::<Tile>::empty());
        assert(v0.union(Seq::<Tile>::empty().to_set()) =~= v0);
        assert(out@ =~= o0 + dedup(nbrs_all(tiles@.subrange(0, 0)), v0));
        while k < tiles.len()
            invariant
                0 <= k <= tiles@.len(),
                out@ == o0 + dedup(nbrs_all(tiles@.subrange(0, k as int)), v0),
                seen.members() == v0.union(nbrs_all(tiles@.subrange(0, k as int)).to_set()),
                forall|i: int| 0 <= i < out@.len() ==> out@[i] < GRID_SIZE,
            decreases tiles@.len() - k,
        {
            let n = Self::nbr_vec(tiles[k]);
            let ghost c0 = nbrs_all(tiles@.subrange(0, k as int));
            let ghost ob = out@;
            let ghost sb = seen.members();
            Self::collect_new(&n, seen, out);
            proof {
                assert(tiles@.subrange(0, k + 1).drop_last() =~= tiles@.subrange(0, k as int));
                assert(nbrs_all(tiles@.subrange(0, k + 1)) == c0 + n@);
                lemma_dedup_concat(c0, n@, v0);
                lemma_concat_to_set(c0, n@);
                assert(sb.union(n@.to_set()) =~= v0.union((c0 + n@).to_set()));
            }
            k += 1;
            assert(out@ =~= o0 + dedup(nbrs_all(tiles@.subrange(0, k as int)), v0));
        }
        assert(tiles@.subrange(0, k as int) =~= tiles@);
    }

    /// Placements of each of `bugs` on each tile of `tiles`.
    fn push_places(tiles: &Vec<Tile>, bugs: &Vec<PieceType>, turns: &mut Vec<Action>)
        requires
            forall|i: int| 0 <= i < tiles@.len() ==> tiles@[i] < GRID_SIZE,
        ensures
            final(turns)@ == old(turns)@ + places_all(tiles@, bugs@),
            forall|i: int|
                old(turns)@.len() <= i < final(turns)@.len() ==> (#[trigger] final(turns)@[i]).wf()
                    && (final(turns)@[i].spec_kind() matches ActionKind::Place(_, p) && bugs@.contains(p)),
    {
        let ghost t0 = turns@;
        let mut k: usize = 0;
        while k < tiles.len()
            invariant
                0 <= k <= tiles@.len(),
                forall|i: int| 0 <= i < tiles@.len() ==> tiles@[i] < GRID_SIZE,
                turns@ == t0 + places_all(tiles@.subrange(0, k as int), bugs@),
                forall|i: int|
                    t0.len() <= i < turns@.len() ==> (#[trigger] turns@[i]).wf() && (turns@[i].spec_kind() matches ActionKind::Place(_, p) && bugs@.contains(p)),
            decreases tiles@.len() - k,
        {
            let t = tiles[k];
            let ghost tk = turns@;
            let mut j: usize = 0;
            while j < bugs.len()
                invariant
                    0 <= j <= bugs@.len(),
                    t < GRID_SIZE,
                    turns@ == tk + places(t, bugs@.subrange(0, j as int)),
                    tk.len() >= t0.len(),
                    forall|i: int|
                        t0.len() <= i < turns@.len() ==> (#[trigger] turns@[i]).wf() && (turns@[i].spec_kind() matches ActionKind::Place(_, p) && bugs@.contains(p)),
                decreases bugs@.len() - j,
            {
                assert(bugs@.contains(bugs@[j as int]));
                turns.push(Action::Place(t, bugs[j]));
                j += 1;
                assert(turns@ =~= tk + places(t, bugs@.subrange(0, j as int)));
            }
            assert(bugs@.subrange(0, j as int) =~= bugs@);
            assert(tiles@.subrange(0, k + 1).drop_last() =~= tiles@.subrange(0, k as int));
            k += 1;
            assert(turns@ =~= t0 + places_all(tiles@.subrange(0, k as int), bugs@));
        }
        assert(tiles@.subrange(0, k as int) =~= tiles@);
    }

    /// Placements of the player to move: each piece type it may place, on
    /// each free tile next to its pieces and away from the opponent's.
    fn generate_placements(&self, turns: &mut Vec<Action>)
        requires
            self.wf(),
        ensures
            final(turns)@ == old(turns)@ + placements_spec(*self),
            all_gen_ok(*self, old(turns)@) ==> all_gen_ok(*self, final(turns)@),
    {
        let me = self.color().index();
        let other = self.color().other().index();
        let mut no_placement = TileSet::new();
        let mut scratch: Vec<Tile> = Vec::new();
        Self::collect_neighbours(&self.occupied_tiles[other].occupants, &mut no_placement, &mut scratch);
        let ghost e = nbrs_all(self.occupied_tiles[other as int].occupants@).to_set();
        assert(no_placement.members() =~= e);
        let mut fresh: Vec<Tile> = Vec::new();
        Self::collect_neighbours(&self.occupied_tiles[me].occupants, &mut no_placement, &mut fresh);
        assert(fresh@ =~= dedup(nbrs_all(self.occupied_tiles[me as int].occupants@), e));
        let free = self.with_occupancy(&fresh, false);
        let queen_required = self.queen_required();
        let all = Pct::iter_all();
        let mut bugs: Vec<PieceType> = Vec::new();
        let mut k: usize = 0;
        while k < 8
            invariant
                0 <= k <= 8,
                me == mover(*self),
                queen_required == queen_required_spec(*self),
                forall|i: int| 0 <= i < 8 ==> all@[i] == pct_from_index(i),
                bugs@ == placeable_bugs(*self, k as int),
                forall|i: int| 0 <= i < bugs@.len() ==> self.placeable[me as int][pct_index(#[trigger] bugs@[i])] > 0,
            decreases 8 - k,
        {
            if (!queen_required || k == 0) && self.placeable[me][k] > 0 {
                proof {
                    assert(pct_index(pct_from_index(k as int)) == k);
                }
                bugs.push(all[k]);
            }
            k += 1;
        }
        let ghost tb = turns@;
        Self::push_places(&free, &bugs, turns);
        assert forall|i: int| tb.len() <= i < turns@.len() implies gen_ok(*self, #[trigger] turns@[i]) by {
            if let ActionKind::Place(_, p) = turns@[i].spec_kind() {
                let j = choose|j: int| 0 <= j < bugs@.len() && bugs@[j] == p;
                assert(self.placeable[me as int][pct_index(bugs@[j])] > 0);
            }
        }
        assert(all_gen_ok(*self, tb) ==> all_gen_ok(*self, turns@)) by {
            if all_gen_ok(*self, tb) {
                assert forall|i: int| 0 <= i < turns@.len() implies gen_ok(*self, #[trigger] turns@[i]) by {
                    if i < tb.len() {
                        assert(turns@[i] == tb[i]);
                    }
                }
            }
        }
    }

    /// The moves of the first two plies (see `opening_spec`).
    fn generate_opening(&self) -> (r: Vec<Action>)
        requires
            self.turn_num < 2,
        ensures
            r@ == opening_spec(*self),
            all_gen_ok(*self, r@),
    {
        let me = self.color().index();
        let all = Pct::iter_all();
        let mut turns: Vec<Action> = Vec::new();
        let around = Self::nbr_vec(TILE_ZERO);
        let ghost bugs = opening_bugs(*self, 8);
        let mut k: usize = 0;
        while k < 8
            invariant
                0 <= k <= 8,
                me == mover(*self),
                self.turn_num < 2,
                forall|i: int| 0 <= i < 8 ==> all@[i] == pct_from_index(i),
                around@ == nbr_tiles(TILE_ZERO as int),
                forall|i: int| 0 <= i < around@.len() ==> around@[i] < GRID_SIZE,
                turns@ == if self.turn_num == 0 {
                    places(TILE_ZERO, opening_bugs(*self, k as int))
                } else {
                    places_around(opening_bugs(*self, k as int))
                },
                all_gen_ok(*self, turns@),
            decreases 8 - k,
        {
            let bug = all[k];
            proof {
                assert(pct_index(pct_from_index(k as int)) == k);
            }
            if k != 0 && self.placeable[me][k] > 0 {
                let ghost ob = opening_bugs(*self, k as int);
                if self.turn_num == 0 {
                    turns.push(Action::Place(TILE_ZERO, bug));
                    assert(turns@ =~= places(TILE_ZERO, ob.push(bug)));
                } else {
                    let ghost tb = turns@;
                    let mut j: usize = 0;
                    while j < 6
                        invariant
                            0 <= j <= 6,
                            around@ == nbr_tiles(TILE_ZERO as int),
                            forall|i: int| 0 <= i < around@.len() ==> around@[i] < GRID_SIZE,
                            turns@ == tb + nbr_tiles(TILE_ZERO as int).subrange(0, j as int).map_values(
                                |t: Tile| Action::spec_from_kind(ActionKind::Place(t, bug)),
                            ),
                            self.placeable[me as int][pct_index(bug)] > 0,
                            me == mover(*self),
                            all_gen_ok(*self, turns@),
                        decreases 6 - j,
                    {
                        turns.push(Action::Place(around[j], bug));
                        j += 1;
                        assert(turns@ =~= tb + nbr_tiles(TILE_ZERO as int).subrange(0, j as int).map_values(
                            |t: Tile| Action::spec_from_kind(ActionKind::Place(t, bug)),
                        ));
                    }
                    assert(nbr_tiles(TILE_ZERO as int).subrange(0, 6) =~= nbr_tiles(TILE_ZERO as int));
                    assert(ob.push(bug).drop_last() =~= ob);
                }
            }
            k += 1;
        }
        turns
    }

    /// The moves of the piece on `hex` by its own type.
    fn generate_piece_moves(&self, hex: Tile, turns: &mut Vec<Action>)
        requires
            self.wf(),
            hex < GRID_SIZE,
            self.height@[hex as int] > 0,
        ensures
            final(turns)@ == old(turns)@ + piece_moves(*self, hex as int),
            tail_moves(final(turns)@, old(turns)@.len() as int),
    {
        let ghost t0 = turns@;
        match self.tile(hex).ptype() {
            PieceType::Queen => self.generate_walk1(hex, turns),
            PieceType::Grasshopper => self.generate_jumps(hex, turns),
            PieceType::Spider => self.generate_walk3(hex, turns),
            PieceType::Ant => self.generate_walk_all(hex, turns),
            PieceType::Beetle => {
                self.generate_walk1(hex, turns);
                self.generate_stack_walking(hex, turns);
                assert(turns@ =~= t0 + piece_moves(*self, hex as int));
            },
            PieceType::Mosquito => self.generate_mosquito(hex, turns),
            PieceType::Ladybug => self.generate_ladybug(hex, turns),
            PieceType::Pillbug => self.generate_walk1(hex, turns),
        }
    }

    /// A pillbug is next to `hex`.
    fn next_to_pillbug(&self, hex: Tile) -> (r: bool)
        requires
            self.wf(),
        ensures
            r == touches(*self, hex as int, PieceType::Pillbug),
    {
        let nbrs = adjacent(hex);
        let mut found = false;
        let mut i: usize = 0;
        while i < 6
            invariant
                self.wf(),
                0 <= i <= 6,
                forall|j: int| 0 <= j < 6 ==> nbrs@[j] == #[trigger] nb(hex as int, j),
                forall|j: int| 0 <= j < 6 ==> nbrs@[j] < GRID_SIZE,
                found == touches_upto(*self, hex as int, PieceType::Pillbug, i as int),
            decreases 6 - i,
        {
            let n = self.tile(nbrs[i]);
            if n.is_some() && n.ptype() == PieceType::Pillbug {
                found = true;
            }
            i += 1;
        }
        found
    }

    /// All movements of the player to move when the pieces on the tiles of
    /// `immovable` would split the hive: throws first, then the moves of
    /// each piece, without repeating a throw.
    pub fn generate_movements_with(&self, immovable: TileSet, turns: &mut Vec<Action>)
        requires
            self.wf(),
        ensures
            final(turns)@ == old(turns)@ + movements_spec(*self, immovable.members()),
            tail_moves(final(turns)@, old(turns)@.len() as int),
    {
        let mut immovable = immovable;
        let ghost cut = immovable.members();
        let n_hist = self.turn_history.len();
        let mut stunned_tile: Option<Tile> = None;
        if n_hist > 0 {
            match self.turn_history[n_hist - 1].kind() {
                ActionKind::Move(_, dest) => {
                    stunned_tile = Some(dest);
                    assert(dest < GRID_SIZE) by {
                        assert(self.turn_history@[n_hist - 1].wf());
                    }
                    immovable.set(dest);
                },
                _ => {},
            }
        }
        assert forall|t: Tile| #[trigger] immovable.members().contains(t) == pinned(*self, cut).contains(t) by {
            assert(immovable.members().contains(t) == immovable.has(t as int));
        }
        assert(immovable.members() =~= pinned(*self, cut));
        assert(stunned_tile == stunned(*self));
        let ghost imm = immovable.members();
        let me = self.color().index();
        let fr = &self.occupied_tiles[me].occupants;
        assert forall|j: int| 0 <= j < fr@.len() implies fr@[j] < GRID_SIZE && self.height@[fr@[j] as int] > 0 by {
            assert(self.occupied_tiles[me as int].occupants@.contains(fr@[j]));
        }
        let mut found: Vec<Action> = Vec::new();
        let mut throw_starts = TileSet::new();
        let mut throw_ends = TileSet::new();
        assert(throw_starts.members() =~= Set::<Tile>::empty());
        assert(throw_ends.members() =~= Set::<Tile>::empty());
        let mut k: usize = 0;
        while k < fr.len()
            invariant
                self.wf(),
                imm == immovable.members(),
                stunned_tile == stunned(*self),
                forall|j: int| 0 <= j < fr@.len() ==> fr@[j] < GRID_SIZE && self.height@[fr@[j] as int] > 0,
                0 <= k <= fr@.len(),
                (found@, throw_starts.members(), throw_ends.members()) == throw_phase(*self, imm, fr@.subrange(0, k as int)),
                tail_moves(found@, 0),
            decreases fr@.len() - k,
        {
            let hex = fr[k];
            let ghost pre = fr@.subrange(0, k as int);
            assert(fr@.subrange(0, k + 1).drop_last() =~= pre);
            let marker = found.len();
            let node = self.tile(hex);
            let skip = match stunned_tile {
                Some(t) => t == hex,
                None => false,
            };
            if !skip {
                let throws = node.ptype() == PieceType::Pillbug || (node.ptype() == PieceType::Mosquito
                    && !self.is_stacked(hex) && self.next_to_pillbug(hex));
                if throws {
                    let ghost n0 = found@;
                    self.generate_throws(&immovable, hex, &mut found, &mut throw_starts, &mut throw_ends);
                    let ghost s1 = found@;
                    proof {
                        assert(found@.subrange(0, n0.len() as int) =~= n0);
                        lemma_tail_extend(n0, found@, 0);
                    }
                    let mut i = marker;
                    while i < found.len()
                        invariant
                            marker == n0.len(),
                            marker <= i <= found@.len(),
                            found@.subrange(0, marker as int) == n0,
                            drop_seen(found@, i as int, n0) == drop_seen(s1, marker as int, n0),
                            tail_moves(found@, 0),
                        decreases found@.len() - i,
                    {
                        let a = found[i];
                        let mut seen = false;
                        let mut j: usize = 0;
                        while j < marker
                            invariant
                                0 <= j <= marker,
                                marker == n0.len(),
                                found@.subrange(0, marker as int) == n0,
                                marker <= i < found@.len(),
                                a == found@[i as int],
                                seen == n0.subrange(0, j as int).contains(a),
                            decreases marker - j,
                        {
                            assert(n0.subrange(0, j + 1) =~= n0.subrange(0, j as int).push(n0[j as int]));
                            assert(found@[j as int] == n0[j as int]);
                            proof { vstd::seq_lib::lemma_seq_contains_after_push(n0.subrange(0, j as int), n0[j as int], a); }
                            if found[j] == a {
                                seen = true;
                            }
                            j += 1;
                        }
                        assert(n0.subrange(0, marker as int) =~= n0);
                        let ghost fb = found@;
                        if seen {
                            found.swap_remove(i);
                            assert(found@.subrange(0, marker as int) =~= n0);
                            assert forall|q: int| 0 <= q < found@.len() implies (#[trigger] found@[q]).wf() && found@[q].spec_kind() is Move by {
                                if q == i {
                                    assert(found@[q] == fb[fb.len() - 1]);
                                } else {
                                    assert(found@[q] == fb[q]);
                                }
                            }
                        } else {
                            i += 1;
                        }
                    }
                }
            }
            k += 1;
            assert(fr@.subrange(0, k as int).last() == hex);
        }
        assert(fr@.subrange(0, k as int) =~= fr@);
        let ghost thr = found@;
        let ghost ts = throw_starts.members();
        let ghost te = throw_ends.members();
        let num_throws = found.len();
        let mut k: usize = 0;
        while k < fr.len()
            invariant
                self.wf(),
                imm == immovable.members(),
                ts == throw_starts.members(),
                te == throw_ends.members(),
                num_throws == thr.len(),
                forall|j: int| 0 <= j < fr@.len() ==> fr@[j] < GRID_SIZE && self.height@[fr@[j] as int] > 0,
                0 <= k <= fr@.len(),
                found@ == move_phase(*self, imm, fr@.subrange(0, k as int), ts, te, thr),
                tail_moves(found@, 0),
                found@.len() >= num_throws,
                found@.subrange(0, num_throws as int) == thr,
            decreases fr@.len() - k,
        {
            let hex = fr[k];
            assert(fr@.subrange(0, k + 1).drop_last() =~= fr@.subrange(0, k as int));
            let marker = found.len();
            let ghost n0 = found@;
            if self.is_stacked(hex) {
                self.generate_stack_walking(hex, &mut found);
                proof {
                    assert(found@.subrange(0, n0.len() as int) =~= n0);
                    lemma_tail_extend(n0, found@, 0);
                }
            } else if immovable.get(hex) {
            } else {
                self.generate_piece_moves(hex, &mut found);
                proof {
                    assert(found@.subrange(0, n0.len() as int) =~= n0);
                    lemma_tail_extend(n0, found@, 0);
                }
                if throw_starts.get(hex) {
                    let ghost s1 = found@;
                    let mut i = marker;
                    while i < found.len()
                        invariant
                            marker == n0.len(),
                            num_throws == thr.len(),
                            num_throws <= marker,
                            marker <= i <= found@.len(),
                            found@.subrange(0, marker as int) == n0,
                            n0.subrange(0, num_throws as int) == thr,
                            te == throw_ends.members(),
                            drop_thrown(found@, i as int, te, thr) == drop_thrown(s1, marker as int, te, thr),
                            tail_moves(found@, 0),
                        decreases found@.len() - i,
                    {
                        let a = found[i];
                        let mut drop = false;
                        if a.is_move() {
                            let end = a.move_to();
                            assert(throw_ends.members().contains(end) == throw_ends.has(end as int));
                            if throw_ends.get(end) {
                                let mut j: usize = 0;
                                while j < num_throws
                                    invariant
                                        0 <= j <= num_throws,
                                        num_throws == thr.len(),
                                        num_throws <= marker,
                                        found@.subrange(0, marker as int) == n0,
                                        n0.subrange(0, num_throws as int) == thr,
                                        marker <= i < found@.len(),
                                        a == found@[i as int],
                                        drop == thr.subrange(0, j as int).contains(a),
                                    decreases num_throws - j,
                                {
                                    assert(thr.subrange(0, j + 1) =~= thr.subrange(0, j as int).push(thr[j as int]));
                                    assert(found@[j as int] == thr[j as int]);
                                    proof { vstd::seq_lib::lemma_seq_contains_after_push(thr.subrange(0, j as int), thr[j as int], a); }
                                    if found[j] == a {
                                        drop = true;
                                    }
                                    j += 1;
                                }
                                assert(thr.subrange(0, num_throws as int) =~= thr);
                            }
                        }
                        let ghost fb = found@;
                        if drop {
                            found.swap_remove(i);
                            assert(found@.subrange(0, marker as int) =~= n0);
                            assert forall|q: int| 0 <= q < found@.len() implies (#[trigger] found@[q]).wf() && found@[q].spec_kind() is Move by {
                                if q == i {
                                    assert(found@[q] == fb[fb.len() - 1]);
                                } else {
                                    assert(found@[q] == fb[q]);
                                }
                            }
                        } else {
                            i += 1;
                        }
                    }
                }
            }
            k += 1;
            assert(fr@.subrange(0, k as int).last() == hex);
            assert(found@.subrange(0, num_throws as int) =~= thr);
        }
        assert(fr@.subrange(0, k as int) =~= fr@);
        let ghost tb = turns@;
        let ghost ff = found@;
        turns.append(&mut found);
        assert forall|q: int| tb.len() <= q < turns@.len() implies (#[trigger] turns@[q]).wf() && turns@[q].spec_kind() is Move by {
            assert(turns@[q] == ff[q - tb.len()]);
        }
    }

    /// All movements of the player to move.
    pub fn generate_movements(&self, turns: &mut Vec<Action>)
        requires
            self.wf(),
            few_pieces(*self),
        ensures
            final(turns)@ == old(turns)@ + movements_spec(*self, cut_spec(*self)),
            tail_moves(final(turns)@, old(turns)@.len() as int),
    {
        let immovable = self.find_cut_vertexes();
        self.generate_movements_with(immovable, turns);
    }

    /// Whether the board is within the size that move generation handles
    /// (see `few_pieces`).
    pub fn has_few_pieces(&self) -> (r: bool)
        ensures
            r == few_pieces(*self),
    {
        let n0 = self.occupied_tiles[0].occupants.len();
        let n1 = self.occupied_tiles[1].occupants.len();
        n0 < 254 && n1 < 254 - n0
    }

    /// All legal moves of the player to move (see `moves_spec`).
    pub fn generate_moves(&self) -> (r: Vec<Action>)
        requires
            self.wf(),
            few_pieces(*self),
        ensures
            r@ == moves_spec(*self),
            all_gen_ok(*self, r@),
    {
        if self.turn_num < 2 {
            return self.generate_opening();
        }
        let me = self.color().index();
        let mut turns: Vec<Action> = Vec::new();
        if self.placeable[me][0] == 0 {
            self.generate_movements(&mut turns);
        }
        let ghost m = turns@;
        let mut any = false;
        let mut i: usize = 0;
        while i < 8
            invariant
                0 <= i <= 8,
                me == mover(*self),
                any == exists|j: int| 0 <= j < i && self.placeable[me as int][j] > 0,
            decreases 8 - i,
        {
            if self.placeable[me][i] > 0 {
                any = true;
            }
            i += 1;
        }
        if any {
            self.generate_placements(&mut turns);
        }
        if turns.len() == 0 {
            turns.push(Action::Pass());
        }
        turns
    }

    /// `action` is one of the legal moves.
    pub fn is_legal(&mut self, action: Action) -> (r: bool)
        requires
            old(self).wf(),
            few_pieces(*old(self)),
        ensures
            *final(self) == *old(self),
            r == moves_spec(*old(self)).contains(action),
    {
        let moves = self.generate_moves();
        let mut i: usize = 0;
        while i < moves.len()
            invariant
                moves@ == moves_spec(*self),
                0 <= i <= moves@.len(),
                forall|j: int| 0 <= j < i ==> moves@[j] != action,
            decreases moves@.len() - i,
        {
            if moves[i] == action {
                assert(moves@[i as int] == action);
                return true;
            }
            i += 1;
        }
        false
    }

    /// Climbing moves of the piece on top of the stack on `hex`.
    fn generate_stack_walking(&self, hex: Tile, turns: &mut Vec<Action>)
        requires
            self.wf(),
            hex < GRID_SIZE,
            self.height@[hex as int] > 0,
        ensures
            final(turns)@ == old(turns)@ + moves_to(
                hex as int,
                climbable_spec(*self, hex as int, hex as int),
            ),
            tail_moves(final(turns)@, old(turns)@.len() as int),
    {
        let dests = self.slidable_adjacent_beetle(hex, hex);
        Self::push_moves(hex, &dests, turns);
    }

    /// Sliding moves of one step from `hex` (queen, beetle on the ground,
    /// pillbug).
    fn generate_walk1(&self, hex: Tile, turns: &mut Vec<Action>)
        requires
            self.wf(),
            hex < GRID_SIZE,
        ensures
            final(turns)@ == old(turns)@ + moves_to(
                hex as int,
                slidable_spec(*self, hex as int, hex as int),
            ),
            tail_moves(final(turns)@, old(turns)@.len() as int),
    {
        let dests = self.slidable_adjacent(hex, hex);
        Self::push_moves(hex, &dests, turns);
    }

    /// Grasshopper jumps from `hex`: in each direction, over a contiguous
    /// line of pieces to the first free tile.
    fn generate_jumps(&self, hex: Tile, turns: &mut Vec<Action>)
        requires
            self.wf(),
            hex < GRID_SIZE,
        ensures
            final(turns)@ == old(turns)@ + jumps_upto(*self, hex as int, 6),
            tail_moves(final(turns)@, old(turns)@.len() as int),
    {
        let ghost t0 = turns@;
        let dirs = Direction::all();
        let mut k: usize = 0;
        while k < 6
            invariant
                self.wf(),
                hex < GRID_SIZE,
                0 <= k <= 6,
                forall|i: int| 0 <= i < 6 ==> dirs@[i] == dir_at(i),
                turns@ == t0 + jumps_upto(*self, hex as int, k as int),
                tail_moves(turns@, t0.len() as int),
            decreases 6 - k,
        {
            let dir = dirs[k];
            let mut jump = tile_add(hex, dir);
            let mut dist: usize = 1;
            proof {
                lemma_ray_step(hex as int, dir, 0);
                lemma_ray_step(hex as int, dir, 1);
            }
            assert(jump == ray(hex as int, dir, 1));
            while self.occupied(jump)
                invariant_except_break
                    1 <= dist < GRID_SIZE,
                    jump == ray(hex as int, dir, dist as int),
                    jump != hex,
                    jump_stop(*self, hex as int, dir, 1) == jump_stop(*self, hex as int, dir, dist as int),
                invariant
                    self.wf(),
                    hex < GRID_SIZE,
                    jump < GRID_SIZE,
                ensures
                    jump_spec(*self, hex as int, dir) == (if dist > 1 {
                        Some(jump)
                    } else {
                        None
                    }),
                    jump < GRID_SIZE,
                decreases GRID_SIZE - dist,
            {
                proof {
                    lemma_ray_step(hex as int, dir, dist as int);
                    lemma_ray_step(hex as int, dir, dist as int + 1);
                }
                jump = tile_add(jump, dir);
                dist += 1;
                if jump == hex {
                    assert(jump_stop(*self, hex as int, dir, dist as int) == dist);
                    dist = 0;
                    break;
                }
                if dist == GRID_SIZE {
                    proof {
                        lemma_ray_step(hex as int, dir, GRID_SIZE as int);
                    }
                    assert(false);
                }
            }
            if dist > 1 {
                turns.push(Action::Move(hex, jump));
            }
            k += 1;
            assert(turns@ =~= t0 + jumps_upto(*self, hex as int, k as int));
        }
    }
    /// The neighbours of `hex` that a piece that left `origin` can slide to
    /// from `hex`.
    pub fn slidable_adjacent(&self, origin: Tile, hex: Tile) -> (r: Vec<Tile>)
        requires
            self.wf(),
        ensures
            r@ == slidable_spec(*self, origin as int, hex as int),
            forall|i: int| 0 <= i < r@.len() ==> r@[i] < GRID_SIZE,
    {
        let neighbors = adjacent(hex);
        let mut walls = [false; 6];
        let mut i: usize = 0;
        while i < 6
            invariant
                self.wf(),
                0 <= i <= 6,
                forall|j: int| 0 <= j < 6 ==> neighbors@[j] == #[trigger] nb(hex as int, j),
                forall|j: int| 0 <= j < 6 ==> neighbors@[j] < GRID_SIZE,
                forall|j: int| 0 <= j < i ==> walls@[j] == wall(*self, origin as int, hex as int, j),
            decreases 6 - i,
        {
            walls[i] = self.occupied(neighbors[i]) && neighbors[i] != origin;
            i += 1;
        }
        let mut r: Vec<Tile> = Vec::new();
        let mut k: usize = 0;
        while k < 6
            invariant
                0 <= k <= 6,
                forall|j: int| 0 <= j < 6 ==> neighbors@[j] == #[trigger] nb(hex as int, j),
                forall|j: int| 0 <= j < 6 ==> neighbors@[j] < GRID_SIZE,
                forall|j: int| 0 <= j < 6 ==> walls@[j] == wall(*self, origin as int, hex as int, j),
                r@ == slidable_upto(*self, origin as int, hex as int, k as int),
                forall|j: int| 0 <= j < r@.len() ==> r@[j] < GRID_SIZE,
            decreases 6 - k,
        {
            if !walls[k] && walls[(k + 5) % 6] != walls[(k + 1) % 6] {
                r.push(neighbors[k]);
            }
            k += 1;
        }
        r
    }

    /// The neighbours of `hex` that a climbing piece that left `orig` can
    /// step to from `hex`.
    pub fn slidable_adjacent_beetle(&self, orig: Tile, hex: Tile) -> (r: Vec<Tile>)
        requires
            self.wf(),
            hex < GRID_SIZE,
            orig == hex ==> self.height@[hex as int] > 0,
        ensures
            r@ == climbable_spec(*self, orig as int, hex as int),
            forall|i: int| 0 <= i < r@.len() ==> r@[i] < GRID_SIZE,
    {
        let mut self_height = self.height(hex);
        if orig == hex {
            self_height -= 1;
        }
        let neighbors = adjacent(hex);
        let mut heights = [0i32; 6];
        let mut i: usize = 0;
        while i < 6
            invariant
                self.wf(),
                0 <= i <= 6,
                forall|j: int| 0 <= j < 6 ==> neighbors@[j] == #[trigger] nb(hex as int, j),
                forall|j: int| 0 <= j < 6 ==> neighbors@[j] < GRID_SIZE,
                forall|j: int| 0 <= j < i ==> heights@[j] == self.height@[nb(hex as int, j)],
            decreases 6 - i,
        {
            heights[i] = self.height(neighbors[i]);
            i += 1;
        }
        let mut r: Vec<Tile> = Vec::new();
        let mut k: usize = 0;
        while k < 6
            invariant
                0 <= k <= 6,
                self_height == climb_height(*self, orig as int, hex as int),
                forall|j: int| 0 <= j < 6 ==> neighbors@[j] == #[trigger] nb(hex as int, j),
                forall|j: int| 0 <= j < 6 ==> neighbors@[j] < GRID_SIZE,
                forall|j: int| 0 <= j < 6 ==> heights@[j] == self.height@[nb(hex as int, j)],
                r@ == climbable_upto(*self, orig as int, hex as int, k as int),
                forall|j: int| 0 <= j < r@.len() ==> r@[j] < GRID_SIZE,
            decreases 6 - k,
        {
            let barrier = if self_height > heights[k] {
                self_height
            } else {
                heights[k]
            };
            if barrier != 0 && !(heights[(k + 1) % 6] > barrier && heights[(k + 5) % 6] > barrier) {
                r.push(neighbors[k]);
            }
            k += 1;
        }
        r
    }
}

} // verus!
