//! Piece numbers do not show in the features: exchanging two pieces of one
//! color and type, which only trades their numbers, leaves the feature
//! vector as it was.

use vstd::prelude::*;
use crate::board::{Board, numbered, stack_of, under_at};
use crate::cut::{CutModel, cut_visit, cut_scan, cut_spec, cut_start, cut_init};
use crate::feature_vector::{
    color_neighbours, piece_block, top_block, slot_base, put_block, write_unders, write_tile, write_tiles,
    hist_dirs, hist_tiles, raw_features, features_spec, occupied_list, category, inline_transform,
};
use crate::features::{swap_blocks, PIECE_FEATURES_LEN, TOTAL_FN};
use crate::movegen::{occ, nb};
use crate::piece::color_index;
use crate::piece_type::PieceType;
use crate::slot_order::{group_start, group_size, lemma_canonical_slot_swap, lemma_sort_groups_swap};
use crate::tile::{step, dir_at, Tile, GRID_SIZE, lemma_step_reversible};

verus! {

/// `b2` is `b` with the top pieces of tiles `t1` and `t2`, of one color and
/// one type, exchanged: only their numbers trade places.
pub open spec fn renumbered(b: Board, b2: Board, t1: int, t2: int) -> bool {
    &&& 0 <= t1 < GRID_SIZE
    &&& 0 <= t2 < GRID_SIZE
    &&& t1 != t2
    &&& b.world@.len() == GRID_SIZE
    &&& b.world@[t1].spec_is_some()
    &&& b.world@[t2].spec_is_some()
    &&& b.world@[t1].spec_color() == b.world@[t2].spec_color()
    &&& b.world@[t1].spec_ptype() == b.world@[t2].spec_ptype()
    &&& b2.world@ == b.world@.update(t1, b.world@[t2]).update(t2, b.world@[t1])
    &&& b2.underworld@ == b.underworld@
    &&& b2.occupied_tiles == b.occupied_tiles
    &&& b2.queens == b.queens
    &&& b2.turn_num == b.turn_num
}

/// No piece on the board but the tops of `t1` and `t2` has the identity
/// (and so the feature block) of one of them, as in any game.
pub open spec fn unique_pair(b: Board, t1: int, t2: int) -> bool {
    let s1 = slot_base(b.world@[t1]);
    let s2 = slot_base(b.world@[t2]);
    &&& forall|t: int|
        0 <= t < GRID_SIZE && t != t1 && t != t2 && b.world@[t].spec_is_some() ==> slot_base(
            #[trigger] b.world@[t],
        ) != s1 && slot_base(b.world@[t]) != s2
    &&& forall|i: int|
        0 <= i < b.underworld@.len() ==> slot_base(#[trigger] b.underworld@[i].piece) != s1 && slot_base(
            b.underworld@[i].piece,
        ) != s2
}

/// The block position `s` with the blocks at `s1` and `s2` exchanged.
pub open spec fn swap_pos(s: int, s1: int, s2: int) -> int {
    if s == s1 {
        s2
    } else if s == s2 {
        s1
    } else {
        s
    }
}

proof fn lemma_world_same(b: Board, b2: Board, t1: int, t2: int, x: int)
    requires
        renumbered(b, b2, t1, t2),
        0 <= x < GRID_SIZE,
    ensures
        b2.world@[x].spec_is_some() == b.world@[x].spec_is_some(),
        b2.world@[x].spec_is_some() ==> b2.world@[x].spec_color() == b.world@[x].spec_color(),
        b2.world@[x].spec_is_some() ==> category(b2.world@[x]) == category(b.world@[x]),
        x != t1 && x != t2 ==> b2.world@[x] == b.world@[x],
        x == t1 ==> b2.world@[x] == b.world@[t2],
        x == t2 ==> b2.world@[x] == b.world@[t1],
        b2@.stacks[x].len() == b@.stacks[x].len(),
{
    assert(b2@.stacks[x] == stack_of(b2.world@, b2.underworld@, x));
    assert(b@.stacks[x] == stack_of(b.world@, b.underworld@, x));
}

proof fn lemma_cut_same(b: Board, b2: Board, t1: int, t2: int, st: CutModel, hex: int, parent: int, fuel: nat)
    requires
        renumbered(b, b2, t1, t2),
    ensures
        cut_visit(b2, st, hex, parent, fuel) == cut_visit(b, st, hex, parent, fuel),
    decreases fuel, 7int,
{
    if fuel > 0 {
        let st1 = CutModel {
            visited: st.visited.insert(hex as u16),
            num: st.num.update(hex, st.visit_num),
            low: st.low.update(hex, st.visit_num),
            visit_num: (st.visit_num + 1) as u8,
            ..st
        };
        lemma_scan_same(b, b2, t1, t2, st1, hex, parent, 0, 0, fuel);
    }
}

proof fn lemma_scan_same(
    b: Board,
    b2: Board,
    t1: int,
    t2: int,
    st: CutModel,
    hex: int,
    parent: int,
    i: int,
    children: int,
    fuel: nat,
)
    requires
        renumbered(b, b2, t1, t2),
    ensures
        cut_scan(b2, st, hex, parent, i, children, fuel) == cut_scan(b, st, hex, parent, i, children, fuel),
    decreases fuel, 6 - i,
{
    if !(i >= 6 || i < 0 || fuel == 0) {
        let adj = nb(hex, i);
        assert(occ(b2, adj) == occ(b, adj)) by {
            if 0 <= adj < GRID_SIZE {
                lemma_world_same(b, b2, t1, t2, adj);
            } else {
                assert(b2.world@[adj] == b.world@[adj]);
            }
        }
        if !occ(b, adj) || adj == parent {
            lemma_scan_same(b, b2, t1, t2, st, hex, parent, i + 1, children, fuel);
        } else if st.visited.contains(adj as u16) {
            let st2 = CutModel { low: st.low.update(hex, crate::cut::min_u8(st.low[hex], st.num[adj])), ..st };
            lemma_scan_same(b, b2, t1, t2, st2, hex, parent, i + 1, children, fuel);
        } else {
            lemma_cut_same(b, b2, t1, t2, st, adj, hex, (fuel - 1) as nat);
            let st2 = cut_visit(b, st, adj, hex, (fuel - 1) as nat);
            let st3 = CutModel { low: st2.low.update(hex, crate::cut::min_u8(st2.low[hex], st2.low[adj])), ..st2 };
            let st4 = if st3.low[adj] >= st3.num[hex] && hex != parent {
                CutModel { cut: st3.cut.insert(hex as u16), ..st3 }
            } else {
                st3
            };
            lemma_scan_same(b, b2, t1, t2, st4, hex, parent, i + 1, children + 1, fuel);
        }
    }
}

proof fn lemma_cut_spec_same(b: Board, b2: Board, t1: int, t2: int)
    requires
        renumbered(b, b2, t1, t2),
    ensures
        cut_spec(b2) == cut_spec(b),
{
    assert(cut_start(b2) == cut_start(b));
    lemma_cut_same(b, b2, t1, t2, cut_init(), cut_start(b), cut_start(b), (GRID_SIZE + 1) as nat);
}

proof fn lemma_neighbours_same(b: Board, b2: Board, t1: int, t2: int, tile: int, c: crate::piece::Color, k: int)
    requires
        renumbered(b, b2, t1, t2),
        0 <= tile < GRID_SIZE,
        k <= 6,
    ensures
        color_neighbours(b2, tile, c, k) == color_neighbours(b, tile, c, k),
    decreases k,
{
    if k > 0 {
        lemma_neighbours_same(b, b2, t1, t2, tile, c, k - 1);
        lemma_step_reversible(tile, dir_at(k - 1));
        lemma_world_same(b, b2, t1, t2, step(tile, dir_at(k - 1)));
    }
}

proof fn lemma_blocks_same(b: Board, b2: Board, t1: int, t2: int, tile: int, it: Option<int>, wm: Seq<u16>, bm: Seq<u16>)
    requires
        renumbered(b, b2, t1, t2),
        0 <= tile < GRID_SIZE,
    ensures
        forall|f: i16, u: i16, m: i16| #[trigger] piece_block(b2, tile, it, f, u, m) == piece_block(b, tile, it, f, u, m),
        b2.world@[tile].spec_is_some() ==> top_block(b2, tile, it, wm, bm) == top_block(b, tile, it, wm, bm),
{
    lemma_neighbours_same(b, b2, t1, t2, tile, crate::piece::Color::White, 6);
    lemma_neighbours_same(b, b2, t1, t2, tile, crate::piece::Color::Black, 6);
    lemma_world_same(b, b2, t1, t2, tile);
    lemma_cut_spec_same(b, b2, t1, t2);
}

/// The block of a piece on the board starts at a multiple of 11 within
/// the piece features.
proof fn lemma_slot_base_range(p: crate::piece::Piece)
    requires
        p.spec_is_some(),
        numbered(p),
    ensures
        0 <= slot_base(p) <= PIECE_FEATURES_LEN - 11,
        slot_base(p) % 11 == 0,
{
    let c = color_index(p.spec_color());
    let k = c * 14 + crate::features::slot_of(p.spec_ptype(), p.spec_num() as int);
    assert(0 <= c <= 1);
    assert(0 <= crate::features::slot_of(p.spec_ptype(), p.spec_num() as int) < 14) by {
        match p.spec_ptype() {
            PieceType::Queen => {},
            PieceType::Grasshopper => {},
            PieceType::Spider => {},
            PieceType::Ant => {},
            PieceType::Beetle => {},
            PieceType::Mosquito => {},
            PieceType::Ladybug => {},
            PieceType::Pillbug => {},
        }
    }
    assert(slot_base(p) == k * 11);
    assert((k * 11) % 11 == 0) by (nonlinear_arith);
}

/// Blocks on multiples of 11 are the same or do not overlap.
proof fn lemma_aligned(a: int, c: int)
    requires
        a % 11 == 0,
        c % 11 == 0,
        a != c,
    ensures
        a + 11 <= c || c + 11 <= a,
{
}

/// Writing a block commutes with exchanging two blocks, the written
/// position moved along.
proof fn lemma_put_swap(out: Seq<i16>, s: int, v: Seq<i16>, s1: int, s2: int)
    requires
        out.len() == TOTAL_FN,
        0 <= s <= PIECE_FEATURES_LEN - 11,
        0 <= s1,
        s1 + 11 <= s2,
        s2 <= PIECE_FEATURES_LEN - 11,
        s % 11 == 0,
        s1 % 11 == 0,
        s2 % 11 == 0,
    ensures
        put_block(swap_blocks(out, s1, s2), swap_pos(s, s1, s2), v) == swap_blocks(put_block(out, s, v), s1, s2),
{
    if s != s1 {
        lemma_aligned(s, s1);
    }
    if s != s2 {
        lemma_aligned(s, s2);
    }
    let l = put_block(swap_blocks(out, s1, s2), swap_pos(s, s1, s2), v);
    let r = swap_blocks(put_block(out, s, v), s1, s2);
    assert(l =~= r);
}

/// The exchange of the pieces of `t1` and `t2` on the board `b`, as block
/// positions in the features: their two blocks, the lower first.
pub open spec fn pair_ok(b: Board, b2: Board, t1: int, t2: int) -> bool {
    &&& b.wf()
    &&& renumbered(b, b2, t1, t2)
    &&& unique_pair(b, t1, t2)
    &&& slot_base(b.world@[t1]) < slot_base(b.world@[t2])
}

proof fn lemma_pair_slots(b: Board, b2: Board, t1: int, t2: int)
    requires
        pair_ok(b, b2, t1, t2),
    ensures
        0 <= slot_base(b.world@[t1]),
        slot_base(b.world@[t1]) + 11 <= slot_base(b.world@[t2]),
        slot_base(b.world@[t2]) <= PIECE_FEATURES_LEN - 11,
        slot_base(b.world@[t1]) % 11 == 0,
        slot_base(b.world@[t2]) % 11 == 0,
{
    assert(numbered(b.world@[t1]));
    assert(numbered(b.world@[t2]));
    lemma_slot_base_range(b.world@[t1]);
    lemma_slot_base_range(b.world@[t2]);
    lemma_aligned(slot_base(b.world@[t1]), slot_base(b.world@[t2]));
}

proof fn lemma_unders_swap(b: Board, b2: Board, t1: int, t2: int, out: Seq<i16>, tile: int, it: Option<int>, n: int)
    requires
        pair_ok(b, b2, t1, t2),
        0 <= tile < GRID_SIZE,
        out.len() == TOTAL_FN,
        0 <= n <= under_at(b.underworld@, tile).len(),
    ensures
        ({
            let us = under_at(b.underworld@, tile);
            let s1 = slot_base(b.world@[t1]);
            let s2 = slot_base(b.world@[t2]);
            &&& write_unders(out, b, tile, it, us, n).len() == TOTAL_FN
            &&& write_unders(swap_blocks(out, s1, s2), b2, tile, it, us, n) == swap_blocks(
                write_unders(out, b, tile, it, us, n),
                s1,
                s2,
            )
        }),
    decreases n,
{
    let us = under_at(b.underworld@, tile);
    let s1 = slot_base(b.world@[t1]);
    let s2 = slot_base(b.world@[t2]);
    if n > 0 {
        lemma_unders_swap(b, b2, t1, t2, out, tile, it, n - 1);
        let prev = write_unders(out, b, tile, it, us, n - 1);
        let p = us[n - 1];
        crate::feature_vector::lemma_under_at_valid(b.underworld@, tile);
        crate::board::lemma_under_at_pieces(b.underworld@, tile, n - 1);
        let i = choose|i: int| 0 <= i < b.underworld@.len() && b.underworld@[i].tile == tile && b.underworld@[i].piece == us[n - 1];
        assert(slot_base(b.underworld@[i].piece) != s1);
        lemma_slot_base_range(p);
        lemma_pair_slots(b, b2, t1, t2);
        lemma_blocks_same(b, b2, t1, t2, tile, it, Seq::empty(), Seq::empty());
        assert(piece_block(b2, tile, it, 1, 1, 0) == piece_block(b, tile, it, 1, 1, 0));
        lemma_put_swap(prev, slot_base(p), piece_block(b, tile, it, 1, 1, 0), s1, s2);
        assert(swap_pos(slot_base(p), s1, s2) == slot_base(p));
    }
}

proof fn lemma_tile_swap(b: Board, b2: Board, t1: int, t2: int, out: Seq<i16>, tile: int, it: Option<int>, wm: Seq<u16>, bm: Seq<u16>)
    requires
        pair_ok(b, b2, t1, t2),
        0 <= tile < GRID_SIZE,
        b.world@[tile].spec_is_some(),
        out.len() == TOTAL_FN,
    ensures
        ({
            let s1 = slot_base(b.world@[t1]);
            let s2 = slot_base(b.world@[t2]);
            &&& write_tile(out, b, tile, it, wm, bm).len() == TOTAL_FN
            &&& write_tile(swap_blocks(out, s1, s2), b2, tile, it, wm, bm) == swap_blocks(
                write_tile(out, b, tile, it, wm, bm),
                s1,
                s2,
            )
        }),
{
    reveal(write_tile);
    let s1 = slot_base(b.world@[t1]);
    let s2 = slot_base(b.world@[t2]);
    lemma_pair_slots(b, b2, t1, t2);
    lemma_world_same(b, b2, t1, t2, tile);
    lemma_blocks_same(b, b2, t1, t2, tile, it, wm, bm);
    let top = b.world@[tile];
    assert(numbered(top));
    lemma_slot_base_range(top);
    assert(slot_base(b2.world@[tile]) == swap_pos(slot_base(top), s1, s2)) by {
        if tile != t1 && tile != t2 {
            assert(slot_base(top) != s1 && slot_base(top) != s2);
        }
    }
    lemma_put_swap(out, slot_base(top), top_block(b, tile, it, wm, bm), s1, s2);
    let o1 = put_block(out, slot_base(top), top_block(b, tile, it, wm, bm));
    if b@.stacks[tile].len() > 1 {
        let us = under_at(b.underworld@, tile);
        lemma_unders_swap(b, b2, t1, t2, o1, tile, it, us.len() as int);
    }
}

proof fn lemma_tiles_swap(b: Board, b2: Board, t1: int, t2: int, out: Seq<i16>, tiles: Seq<Tile>, k: int, it: Option<int>, wm: Seq<u16>, bm: Seq<u16>)
    requires
        pair_ok(b, b2, t1, t2),
        0 <= k <= tiles.len(),
        forall|j: int| 0 <= j < tiles.len() ==> (#[trigger] tiles[j]) < GRID_SIZE && b.world@[tiles[j] as int].spec_is_some(),
        out.len() == TOTAL_FN,
    ensures
        ({
            let s1 = slot_base(b.world@[t1]);
            let s2 = slot_base(b.world@[t2]);
            &&& write_tiles(out, b, tiles, k, it, wm, bm).len() == TOTAL_FN
            &&& write_tiles(swap_blocks(out, s1, s2), b2, tiles, k, it, wm, bm) == swap_blocks(
                write_tiles(out, b, tiles, k, it, wm, bm),
                s1,
                s2,
            )
        }),
    decreases k,
{
    if k > 0 {
        lemma_tiles_swap(b, b2, t1, t2, out, tiles, k - 1, it, wm, bm);
        lemma_tile_swap(b, b2, t1, t2, write_tiles(out, b, tiles, k - 1, it, wm, bm), tiles[k - 1] as int, it, wm, bm);
    }
}

proof fn lemma_dirs_swap(b: Board, b2: Board, t1: int, t2: int, out: Seq<i16>, tiles: Seq<Tile>, k: int, d: int)
    requires
        pair_ok(b, b2, t1, t2),
        0 <= k < tiles.len(),
        tiles[k] < GRID_SIZE,
        d <= 6,
        out.len() == TOTAL_FN,
    ensures
        ({
            let s1 = slot_base(b.world@[t1]);
            let s2 = slot_base(b.world@[t2]);
            &&& hist_dirs(out, b, tiles, k, d).len() == TOTAL_FN
            &&& hist_dirs(swap_blocks(out, s1, s2), b2, tiles, k, d) == swap_blocks(hist_dirs(out, b, tiles, k, d), s1, s2)
        }),
    decreases d,
{
    let s1 = slot_base(b.world@[t1]);
    let s2 = slot_base(b.world@[t2]);
    if d > 0 {
        lemma_dirs_swap(b, b2, t1, t2, out, tiles, k, d - 1);
        lemma_pair_slots(b, b2, t1, t2);
        let tile = tiles[k] as int;
        let adj = step(tile, dir_at(d - 1));
        lemma_step_reversible(tile, dir_at(d - 1));
        lemma_world_same(b, b2, t1, t2, tile);
        lemma_world_same(b, b2, t1, t2, adj);
        crate::features::lemma_adj_idx_range(category(b.world@[tile]), category(b.world@[adj]));
        let prev = hist_dirs(out, b, tiles, k, d - 1);
        let l = hist_dirs(swap_blocks(out, s1, s2), b2, tiles, k, d);
        let r = swap_blocks(hist_dirs(out, b, tiles, k, d), s1, s2);
        assert(category(b2.world@[tile]) == category(b.world@[tile])) by {
            assert(b.world@[tile].spec_is_some() ==> b2.world@[tile].spec_is_some());
            if !b.world@[tile].spec_is_some() {
                assert(tile != t1 && tile != t2);
            }
        }
        assert(l =~= r);
    }
}

proof fn lemma_hist_swap(b: Board, b2: Board, t1: int, t2: int, out: Seq<i16>, tiles: Seq<Tile>, k: int)
    requires
        pair_ok(b, b2, t1, t2),
        0 <= k <= tiles.len(),
        forall|j: int| 0 <= j < tiles.len() ==> (#[trigger] tiles[j]) < GRID_SIZE,
        out.len() == TOTAL_FN,
    ensures
        ({
            let s1 = slot_base(b.world@[t1]);
            let s2 = slot_base(b.world@[t2]);
            &&& hist_tiles(out, b, tiles, k).len() == TOTAL_FN
            &&& hist_tiles(swap_blocks(out, s1, s2), b2, tiles, k) == swap_blocks(hist_tiles(out, b, tiles, k), s1, s2)
        }),
    decreases k,
{
    if k > 0 {
        lemma_hist_swap(b, b2, t1, t2, out, tiles, k - 1);
        lemma_dirs_swap(b, b2, t1, t2, hist_tiles(out, b, tiles, k - 1), tiles, k - 1, 6);
    }
}

proof fn lemma_raw_swap(b: Board, b2: Board, t1: int, t2: int, wm: Seq<u16>, bm: Seq<u16>)
    requires
        pair_ok(b, b2, t1, t2),
    ensures
        raw_features(b2, wm, bm) == swap_blocks(
            raw_features(b, wm, bm),
            slot_base(b.world@[t1]),
            slot_base(b.world@[t2]),
        ),
        raw_features(b, wm, bm).len() == TOTAL_FN,
{
    let s1 = slot_base(b.world@[t1]);
    let s2 = slot_base(b.world@[t2]);
    let tiles = occupied_list(b);
    assert(occupied_list(b2) == tiles);
    assert(inline_transform(b2) == inline_transform(b));
    let it = inline_transform(b);
    let zeros = Seq::new(TOTAL_FN as nat, |i: int| 0i16);
    let o0 = b.occupied_tiles[0].occupants@;
    let o1 = b.occupied_tiles[1].occupants@;
    assert forall|j: int| 0 <= j < tiles.len() implies (#[trigger] tiles[j]) < GRID_SIZE
        && b.world@[tiles[j] as int].spec_is_some() by {
        if j < o0.len() {
            assert(tiles[j] == o0[j]);
            assert(b.occupied_tiles[0int].occupants@.contains(tiles[j]));
        } else {
            assert(tiles[j] == o1[j - o0.len()]);
            assert(b.occupied_tiles[1int].occupants@.contains(tiles[j]));
        }
    }
    lemma_pair_slots(b, b2, t1, t2);
    assert(swap_blocks(zeros, s1, s2) =~= zeros);
    lemma_tiles_swap(b, b2, t1, t2, zeros, tiles, tiles.len() as int, it, wm, bm);
    let w = write_tiles(zeros, b, tiles, tiles.len() as int, it, wm, bm);
    lemma_hist_swap(b, b2, t1, t2, w, tiles, tiles.len() as int);
}

/// The two blocks of a pair of like pieces lie in one group of the
/// features.
proof fn lemma_pair_group(b: Board, b2: Board, t1: int, t2: int) -> (r: (int, int, int))
    requires
        pair_ok(b, b2, t1, t2),
    ensures
        0 <= r.0 < 8,
        0 <= r.1 < r.2 < group_size(r.0),
        slot_base(b.world@[t1]) == group_start(r.0) + 11 * r.1,
        slot_base(b.world@[t2]) == group_start(r.0) + 11 * r.2,
{
    let p1 = b.world@[t1];
    let p2 = b.world@[t2];
    assert(numbered(p1));
    assert(numbered(p2));
    let c = color_index(p1.spec_color());
    let n1 = p1.spec_num() as int;
    let n2 = p2.spec_num() as int;
    let t = match p1.spec_ptype() {
        PieceType::Grasshopper => 0int,
        PieceType::Spider => 1int,
        PieceType::Ant => 2int,
        _ => 3int,
    };
    (c * 4 + t, n1 - 1, n2 - 1)
}

/// Exchanging two pieces of one color and type on the board, which only
/// trades their numbers, leaves the feature vector (for the same moves)
/// unchanged, where no other piece on the board has the identity of one of
/// them.
pub proof fn lemma_features_renumbered(b: Board, b2: Board, t1: int, t2: int, wm: Seq<u16>, bm: Seq<u16>)
    requires
        b.wf(),
        renumbered(b, b2, t1, t2),
        b.world@[t1].spec_num() != b.world@[t2].spec_num(),
        unique_pair(b, t1, t2),
    ensures
        features_spec(b2, wm, bm) == features_spec(b, wm, bm),
{
    let s1 = slot_base(b.world@[t1]);
    let s2 = slot_base(b.world@[t2]);
    assert(s1 != s2);
    if s1 < s2 {
        lemma_features_pair(b, b2, t1, t2, wm, bm);
    } else {
        assert(b.world@.update(t2, b.world@[t1]).update(t1, b.world@[t2]) =~= b.world@.update(t1, b.world@[t2]).update(t2, b.world@[t1]));
        lemma_features_pair(b, b2, t2, t1, wm, bm);
    }
}

proof fn lemma_features_pair(b: Board, b2: Board, t1: int, t2: int, wm: Seq<u16>, bm: Seq<u16>)
    requires
        pair_ok(b, b2, t1, t2),
    ensures
        features_spec(b2, wm, bm) == features_spec(b, wm, bm),
{
    lemma_raw_swap(b, b2, t1, t2, wm, bm);
    let (g, p, q) = lemma_pair_group(b, b2, t1, t2);
    let raw = raw_features(b, wm, bm);
    assert(inline_transform(b2) == inline_transform(b));
    lemma_canonical_slot_swap(raw, g, p, q);
    lemma_sort_groups_swap(raw, g, p, q);
}

} // verus!
