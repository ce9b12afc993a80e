//! The pieces that may not move because lifting them would split the hive:
//! the cut vertexes of the graph of occupied tiles, found by one depth-first
//! search that numbers the tiles and tracks, for each, the lowest number
//! reachable through its subtree and one back edge.

use vstd::prelude::*;
use crate::abstractions::TileSet;
use crate::board::Board;
use crate::movegen::{nb, occ, mover, few_pieces, unvisited_count, lemma_unvisited_count_insert, lemma_unvisited_count_bounds};
use crate::tile::{adjacent, dir_at, spec_opposite, lemma_step_reversible, Tile, GRID_SIZE, TILE_ZERO};

verus! {

/// State of the search: tiles reached, tiles found to be cut vertexes,
/// visit numbers, lowest reachable visit numbers, next visit number.
pub struct CutModel {
    pub visited: Set<Tile>,
    pub cut: Set<Tile>,
    pub num: Seq<u8>,
    pub low: Seq<u8>,
    pub visit_num: u8,
}

/// The smaller of two visit numbers.
pub open spec fn min_u8(a: u8, b: u8) -> u8 {
    if a < b {
        a
    } else {
        b
    }
}

/// Visit `hex`, reached from `parent` (`hex` itself at the root): number
/// it, search its unvisited occupied neighbours, and mark it as a cut
/// vertex when it is a root with several subtrees. Each nested visit uses
/// one unit of `fuel`.
pub open spec fn cut_visit(b: Board, st: CutModel, hex: int, parent: int, fuel: nat) -> CutModel
    decreases fuel, 7int,
{
    if fuel == 0 {
        st
    } else {
        let st1 = CutModel {
            visited: st.visited.insert(hex as u16),
            num: st.num.update(hex, st.visit_num),
            low: st.low.update(hex, st.visit_num),
            visit_num: (st.visit_num + 1) as u8,
            ..st
        };
        let (st2, children) = cut_scan(b, st1, hex, parent, 0, 0, fuel);
        if hex == parent && children > 1 {
            CutModel { cut: st2.cut.insert(hex as u16), ..st2 }
        } else {
            st2
        }
    }
}

/// The neighbours of `hex` from the `i`-th on, during the visit of `hex`:
/// a visited one lowers `hex`'s low number to its visit number; an
/// unvisited one is visited, lowers `hex`'s low number to its own, and makes
/// a non-root `hex` a cut vertex if it cannot reach above `hex`. Returns the
/// state and the number of subtrees.
pub open spec fn cut_scan(
    b: Board,
    st: CutModel,
    hex: int,
    parent: int,
    i: int,
    children: int,
    fuel: nat,
) -> (CutModel, int)
    decreases fuel, 6 - i,
{
    if i >= 6 || i < 0 || fuel == 0 {
        (st, children)
    } else {
        let adj = nb(hex, i);
        if !occ(b, adj) || adj == parent {
            cut_scan(b, st, hex, parent, i + 1, children, fuel)
        } else if st.visited.contains(adj as u16) {
            let st2 = CutModel { low: st.low.update(hex, min_u8(st.low[hex], st.num[adj])), ..st };
            cut_scan(b, st2, hex, parent, i + 1, children, fuel)
        } else {
            let st2 = cut_visit(b, st, adj, hex, (fuel - 1) as nat);
            let st3 = CutModel { low: st2.low.update(hex, min_u8(st2.low[hex], st2.low[adj])), ..st2 };
            let st4 = if st3.low[adj] >= st3.num[hex] && hex != parent {
                CutModel { cut: st3.cut.insert(hex as u16), ..st3 }
            } else {
                st3
            };
            cut_scan(b, st4, hex, parent, i + 1, children + 1, fuel)
        }
    }
}

/// Where the search starts: the first tile of the player to move, or the
/// first tile when that player has none.
pub open spec fn cut_start(b: Board) -> int {
    let fr = b.occupied_tiles[mover(b)].occupants@;
    if fr.len() > 0 {
        fr[0] as int
    } else {
        TILE_ZERO as int
    }
}

/// The initial state of the search.
pub open spec fn cut_init() -> CutModel {
    CutModel {
        visited: Set::empty(),
        cut: Set::empty(),
        num: Seq::new(GRID_SIZE as nat, |i: int| 0u8),
        low: Seq::new(GRID_SIZE as nat, |i: int| 0u8),
        visit_num: 1,
    }
}

/// The tiles whose piece may not be lifted without splitting the hive, as
/// found by the search from `cut_start`.
pub open spec fn cut_spec(b: Board) -> Set<Tile> {
    cut_visit(b, cut_init(), cut_start(b), cut_start(b), (GRID_SIZE + 1) as nat).cut
}

/// Tile `y` is one of the six neighbours of tile `x`.
pub open spec fn touching(x: int, y: int) -> bool {
    exists|i: int| 0 <= i < 6 && nb(x, i) == y
}

/// Tile `t` is on the grid, holds a piece and is not in `avoid`.
pub open spec fn passable(b: Board, avoid: Set<Tile>, t: int) -> bool {
    0 <= t < GRID_SIZE && occ(b, t) && !avoid.contains(t as Tile)
}

/// `p` is a walk through the hive: a nonempty list of passable tiles, each
/// a neighbour of the one before.
pub open spec fn hive_path(b: Board, avoid: Set<Tile>, p: Seq<int>) -> bool
    decreases p.len(),
{
    if p.len() == 0 {
        false
    } else if p.len() == 1 {
        passable(b, avoid, p[0])
    } else {
        passable(b, avoid, p[0]) && touching(p[0], p[1]) && hive_path(b, avoid, p.drop_first())
    }
}

/// Tiles `x` and `y` are joined by a walk through the pieces of the hive
/// that never enters a tile of `avoid`.
pub open spec fn joined(b: Board, avoid: Set<Tile>, x: int, y: int) -> bool {
    exists|p: Seq<int>| #[trigger] hive_path(b, avoid, p) && p[0] == x && p.last() == y
}

/// Being neighbours is symmetric on the grid.
proof fn lemma_touching_symmetric(x: int, y: int)
    requires
        0 <= x < GRID_SIZE,
        touching(x, y),
    ensures
        touching(y, x),
        0 <= y < GRID_SIZE,
{
    let i = choose|i: int| 0 <= i < 6 && nb(x, i) == y;
    let j = if i < 3 { i + 3 } else { i - 3 };
    lemma_step_reversible(x, dir_at(i));
    assert(spec_opposite(dir_at(i)) == dir_at(j));
    assert(nb(y, j) == x);
}

/// A walk stays a walk when fewer tiles are to be avoided.
proof fn lemma_path_avoid_less(b: Board, big: Set<Tile>, small: Set<Tile>, p: Seq<int>)
    requires
        small.subset_of(big),
        hive_path(b, big, p),
    ensures
        hive_path(b, small, p),
    decreases p.len(),
{
    if p.len() > 1 {
        lemma_path_avoid_less(b, big, small, p.drop_first());
    }
}

/// Walks are closed under joining end to start.
proof fn lemma_path_concat(b: Board, avoid: Set<Tile>, p: Seq<int>, q: Seq<int>)
    requires
        hive_path(b, avoid, p),
        hive_path(b, avoid, q),
        p.last() == q[0],
    ensures
        hive_path(b, avoid, p + q.drop_first()),
        (p + q.drop_first())[0] == p[0],
        (p + q.drop_first()).last() == q.last(),
    decreases p.len(),
{
    if p.len() == 1 {
        assert(p + q.drop_first() =~= q);
    } else {
        lemma_path_concat(b, avoid, p.drop_first(), q);
        assert((p + q.drop_first()).drop_first() =~= p.drop_first() + q.drop_first());
    }
}

/// A walk extended by one neighbouring passable tile.
proof fn lemma_path_push(b: Board, avoid: Set<Tile>, p: Seq<int>, t: int)
    requires
        hive_path(b, avoid, p),
        passable(b, avoid, t),
        touching(p.last(), t),
    ensures
        hive_path(b, avoid, p.push(t)),
    decreases p.len(),
{
    let q = p.push(t);
    if p.len() == 1 {
        assert(q.drop_first() =~= seq![t]);
        assert(hive_path(b, avoid, seq![t]));
        assert(q[1] == t && q[0] == p.last());
    } else {
        lemma_path_push(b, avoid, p.drop_first(), t);
        assert(q.drop_first() =~= p.drop_first().push(t));
        assert(q[0] == p[0] && q[1] == p[1]);
    }
}

/// A walk read backwards is a walk.
proof fn lemma_path_reverse(b: Board, avoid: Set<Tile>, p: Seq<int>)
    requires
        hive_path(b, avoid, p),
    ensures
        hive_path(b, avoid, p.reverse()),
    decreases p.len(),
{
    if p.len() == 1 {
        assert(p.reverse() =~= p);
    } else {
        let q = p.drop_first();
        lemma_path_reverse(b, avoid, q);
        assert(p.reverse() =~= q.reverse().push(p[0]));
        lemma_touching_symmetric(p[0], p[1]);
        assert(q.reverse().last() == p[1]);
        lemma_path_push(b, avoid, q.reverse(), p[0]);
    }
}

/// `joined` is symmetric and transitive.
proof fn lemma_joined_chain(b: Board, avoid: Set<Tile>, x: int, y: int, z: int)
    requires
        joined(b, avoid, y, x),
        joined(b, avoid, y, z),
    ensures
        joined(b, avoid, x, z),
{
    let p = choose|p: Seq<int>| hive_path(b, avoid, p) && p[0] == y && p.last() == x;
    let q = choose|q: Seq<int>| hive_path(b, avoid, q) && q[0] == y && q.last() == z;
    lemma_path_reverse(b, avoid, p);
    assert(p.reverse()[0] == x);
    assert(p.reverse().last() == y);
    lemma_path_concat(b, avoid, p.reverse(), q);
}

/// The visit of an unvisited occupied `hex` only reaches tiles joined to
/// `hex` through tiles that were unvisited when it began, and loses none.
proof fn lemma_visit_stays_joined(b: Board, st: CutModel, hex: int, parent: int, fuel: nat)
    requires
        0 <= hex < GRID_SIZE,
        occ(b, hex),
        !st.visited.contains(hex as Tile),
    ensures
        st.visited.subset_of(cut_visit(b, st, hex, parent, fuel).visited),
        forall|t: Tile| #[trigger] cut_visit(b, st, hex, parent, fuel).visited.contains(t) ==> st.visited.contains(t)
            || joined(b, st.visited, hex, t as int),
    decreases fuel, 7int,
{
    if fuel > 0 {
        let st1 = CutModel {
            visited: st.visited.insert(hex as u16),
            num: st.num.update(hex, st.visit_num),
            low: st.low.update(hex, st.visit_num),
            visit_num: (st.visit_num + 1) as u8,
            ..st
        };
        assert(hive_path(b, st.visited, seq![hex]));
        assert(joined(b, st.visited, hex, hex));
        lemma_scan_stays_joined(b, st1, hex, parent, 0, 0, fuel, st.visited);
    }
}

/// The scan of `hex`'s neighbours keeps every visited tile either in `a`
/// (the tiles visited before `hex`) or joined to `hex` avoiding `a`.
proof fn lemma_scan_stays_joined(
    b: Board,
    st: CutModel,
    hex: int,
    parent: int,
    i: int,
    children: int,
    fuel: nat,
    a: Set<Tile>,
)
    requires
        0 <= hex < GRID_SIZE,
        occ(b, hex),
        !a.contains(hex as Tile),
        a.subset_of(st.visited),
        forall|t: Tile| #[trigger] st.visited.contains(t) ==> a.contains(t) || joined(b, a, hex, t as int),
    ensures
        st.visited.subset_of(cut_scan(b, st, hex, parent, i, children, fuel).0.visited),
        forall|t: Tile| #[trigger] cut_scan(b, st, hex, parent, i, children, fuel).0.visited.contains(t) ==> a.contains(t)
            || joined(b, a, hex, t as int),
    decreases fuel, 6 - i,
{
    if i >= 6 || i < 0 || fuel == 0 {
    } else {
        let adj = nb(hex, i);
        if !occ(b, adj) || adj == parent {
            lemma_scan_stays_joined(b, st, hex, parent, i + 1, children, fuel, a);
        } else if st.visited.contains(adj as u16) {
            let st2 = CutModel { low: st.low.update(hex, min_u8(st.low[hex], st.num[adj])), ..st };
            lemma_scan_stays_joined(b, st2, hex, parent, i + 1, children, fuel, a);
        } else {
            crate::movegen::lemma_nb_ne(hex, i);
            let st2 = cut_visit(b, st, adj, hex, (fuel - 1) as nat);
            lemma_visit_stays_joined(b, st, adj, hex, (fuel - 1) as nat);
            assert forall|t: Tile| #[trigger] st2.visited.contains(t) implies a.contains(t) || joined(b, a, hex, t as int) by {
                if !st.visited.contains(t) {
                    let p = choose|p: Seq<int>| hive_path(b, st.visited, p) && p[0] == adj && p.last() == t as int;
                    lemma_path_avoid_less(b, st.visited, a, p);
                    assert(touching(hex, adj));
                    assert((seq![hex] + p).drop_first() =~= p);
                    assert(hive_path(b, a, seq![hex] + p));
                    assert((seq![hex] + p).last() == t as int);
                }
            }
            let st3 = CutModel { low: st2.low.update(hex, min_u8(st2.low[hex], st2.low[adj])), ..st2 };
            let st4 = if st3.low[adj] >= st3.num[hex] && hex != parent {
                CutModel { cut: st3.cut.insert(hex as u16), ..st3 }
            } else {
                st3
            };
            lemma_scan_stays_joined(b, st4, hex, parent, i + 1, children + 1, fuel, a);
        }
    }
}

/// The first index from `k` on at which `s` has an occupied neighbour; 6
/// when there is none.
pub open spec fn first_occupied(b: Board, s: int, k: int) -> int
    decreases 6 - k,
{
    if k >= 6 || k < 0 {
        6
    } else if occ(b, nb(s, k)) {
        k
    } else {
        first_occupied(b, s, k + 1)
    }
}

proof fn lemma_first_occupied(b: Board, s: int, k: int)
    requires
        0 <= k <= 6,
    ensures
        k <= first_occupied(b, s, k) <= 6,
        first_occupied(b, s, k) < 6 ==> occ(b, nb(s, first_occupied(b, s, k))),
        forall|m: int| k <= m < first_occupied(b, s, k) ==> !occ(b, #[trigger] nb(s, m)),
    decreases 6 - k,
{
    if k < 6 && !occ(b, nb(s, k)) {
        lemma_first_occupied(b, s, k + 1);
    }
}

/// The scan of the start tile `s`: once a neighbour not joined (avoiding
/// `s`) to the first occupied neighbour has been met, two subtrees have been
/// counted. Invariant: every visited tile is `s`, or two subtrees have been
/// counted, or one has and the tile is joined to that first neighbour.
proof fn lemma_root_scan(b: Board, st: CutModel, s: int, i: int, children: int, fuel: nat)
    requires
        0 <= s < GRID_SIZE,
        0 <= i <= 6,
        0 <= children,
        fuel > 0,
        st.visited.contains(s as Tile),
        forall|t: Tile| #[trigger] st.visited.contains(t) ==> t as int == s || children >= 2 || (children >= 1 && joined(
            b,
            Set::empty().insert(s as Tile),
            nb(s, first_occupied(b, s, 0)),
            t as int,
        )),
        i > first_occupied(b, s, 0) ==> children >= 1,
        forall|k: int| 0 <= k < i && occ(b, #[trigger] nb(s, k)) && !joined(
            b,
            Set::empty().insert(s as Tile),
            nb(s, first_occupied(b, s, 0)),
            nb(s, k),
        ) ==> children >= 2,
    ensures
        forall|k: int| 0 <= k < 6 && occ(b, #[trigger] nb(s, k)) && !joined(
            b,
            Set::empty().insert(s as Tile),
            nb(s, first_occupied(b, s, 0)),
            nb(s, k),
        ) ==> cut_scan(b, st, s, s, i, children, fuel).1 >= 2,
    decreases 6 - i,
{
    let one = Set::empty().insert(s as Tile);
    let i1 = first_occupied(b, s, 0);
    lemma_first_occupied(b, s, 0);
    if i < 6 {
        let adj = nb(s, i);
        crate::movegen::lemma_nb_ne(s, i);
        if i1 < 6 {
            crate::movegen::lemma_nb_ne(s, i1);
            assert(hive_path(b, one, seq![nb(s, i1)]));
            assert(joined(b, one, nb(s, i1), nb(s, i1)));
        }
        if !occ(b, adj) || adj == s {
            lemma_root_scan(b, st, s, i + 1, children, fuel);
        } else if st.visited.contains(adj as u16) {
            let st2 = CutModel { low: st.low.update(s, min_u8(st.low[s], st.num[adj])), ..st };
            assert(st2.visited == st.visited);
            lemma_root_scan(b, st2, s, i + 1, children, fuel);
        } else {
            let st2 = cut_visit(b, st, adj, s, (fuel - 1) as nat);
            lemma_visit_stays_joined(b, st, adj, s, (fuel - 1) as nat);
            if children == 0 {
                assert(i == i1);
                assert forall|t: Tile| #[trigger] st2.visited.contains(t) implies t as int == s || joined(b, one, nb(s, i1), t as int) by {
                    if !st.visited.contains(t) {
                        let p = choose|p: Seq<int>| hive_path(b, st.visited, p) && p[0] == adj && p.last() == t as int;
                        assert(one.subset_of(st.visited));
                        lemma_path_avoid_less(b, st.visited, one, p);
                    }
                }
            }
            let st3 = CutModel { low: st2.low.update(s, min_u8(st2.low[s], st2.low[adj])), ..st2 };
            assert(st3.visited == st2.visited);
            lemma_root_scan(b, st3, s, i + 1, children + 1, fuel);
        }
    }
}

/// Lifting the start tile of the search splits the hive when two of its
/// occupied neighbours are joined by no walk through the other pieces; the
/// start tile is then among the cut vertexes.
pub proof fn law_start_tile_is_cut_when_lifting_it_splits_hive(b: Board, i: int, j: int)
    requires
        b.wf(),
        0 <= i < 6,
        0 <= j < 6,
        occ(b, nb(cut_start(b), i)),
        occ(b, nb(cut_start(b), j)),
        !joined(b, Set::empty().insert(cut_start(b) as Tile), nb(cut_start(b), i), nb(cut_start(b), j)),
    ensures
        cut_spec(b).contains(cut_start(b) as Tile),
{
    let s = cut_start(b);
    let one = Set::empty().insert(s as Tile);
    assert(0 <= s < GRID_SIZE) by {
        let fr = b.occupied_tiles[mover(b)].occupants@;
        if fr.len() > 0 {
            assert(b.occupied_tiles[mover(b)].occupants@.contains(fr[0]));
        }
    }
    let fuel = (GRID_SIZE + 1) as nat;
    let st0 = cut_init();
    let st1 = CutModel {
        visited: st0.visited.insert(s as u16),
        num: st0.num.update(s, st0.visit_num),
        low: st0.low.update(s, st0.visit_num),
        visit_num: (st0.visit_num + 1) as u8,
        ..st0
    };
    lemma_first_occupied(b, s, 0);
    let i1 = first_occupied(b, s, 0);
    lemma_root_scan(b, st1, s, 0, 0, fuel);
    let c1 = nb(s, i1);
    if joined(b, one, c1, nb(s, i)) && joined(b, one, c1, nb(s, j)) {
        lemma_joined_chain(b, one, nb(s, i), c1, nb(s, j));
    }
    assert(cut_scan(b, st1, s, s, 0, 0, fuel).1 >= 2);
}

/// With enough fuel, a visit of the unvisited `hex` (from a visited
/// `parent`, or from itself at the root) reaches `hex`, loses no tile, leaves
/// every newly reached tile with all its occupied neighbours reached, and
/// marks as cut vertexes only tiles it newly reached.
proof fn lemma_visit_closes(b: Board, st: CutModel, hex: int, parent: int, fuel: nat)
    requires
        0 <= hex < GRID_SIZE,
        !st.visited.contains(hex as Tile),
        hex == parent || st.visited.contains(parent as Tile),
        unvisited_count(st.visited, GRID_SIZE as int) < fuel,
    ensures
        cut_visit(b, st, hex, parent, fuel).visited.contains(hex as Tile),
        st.visited.subset_of(cut_visit(b, st, hex, parent, fuel).visited),
        forall|t: Tile, k: int|
            #![trigger cut_visit(b, st, hex, parent, fuel).visited.contains(t), nb(t as int, k)]
            cut_visit(b, st, hex, parent, fuel).visited.contains(t) && !st.visited.contains(t) && 0 <= k < 6 && occ(
                b,
                nb(t as int, k),
            ) ==> cut_visit(b, st, hex, parent, fuel).visited.contains(nb(t as int, k) as Tile),
        forall|t: Tile| #[trigger] cut_visit(b, st, hex, parent, fuel).cut.contains(t) ==> st.cut.contains(t)
            || !st.visited.contains(t),
    decreases fuel, 7int,
{
    let st1 = CutModel {
        visited: st.visited.insert(hex as u16),
        num: st.num.update(hex, st.visit_num),
        low: st.low.update(hex, st.visit_num),
        visit_num: (st.visit_num + 1) as u8,
        ..st
    };
    lemma_unvisited_count_insert(st.visited, hex as Tile, GRID_SIZE as int);
    lemma_unvisited_count_bounds(st.visited.insert(hex as Tile), GRID_SIZE as int);
    lemma_scan_closes(b, st1, hex, parent, 0, 0, fuel, st.visited, st.cut);
    let (st2, children) = cut_scan(b, st1, hex, parent, 0, 0, fuel);
    assert forall|t: Tile, k: int|
        #![trigger cut_visit(b, st, hex, parent, fuel).visited.contains(t), nb(t as int, k)]
        cut_visit(b, st, hex, parent, fuel).visited.contains(t) && !st.visited.contains(t) && 0 <= k < 6 && occ(
            b,
            nb(t as int, k),
        ) implies cut_visit(b, st, hex, parent, fuel).visited.contains(nb(t as int, k) as Tile) by {
        assert(st2.visited.contains(t));
        if t == hex as Tile {
            assert(nb(hex, k) == nb(t as int, k));
        }
    }
}

/// The scan of `hex`'s neighbours from the `i`-th on, with `a` the tiles
/// visited before `hex` and `c0` the cut vertexes found before: every
/// occupied neighbour of `hex` ends up reached, every tile reached since
/// `hex` other than `hex` keeps all its occupied neighbours reached, and
/// the cut vertexes found are in `c0` or outside `a`.
proof fn lemma_scan_closes(
    b: Board,
    st: CutModel,
    hex: int,
    parent: int,
    i: int,
    children: int,
    fuel: nat,
    a: Set<Tile>,
    c0: Set<Tile>,
)
    requires
        0 <= hex < GRID_SIZE,
        0 <= i <= 6,
        st.visited.contains(hex as Tile),
        a.subset_of(st.visited),
        !a.contains(hex as Tile),
        hex == parent || a.contains(parent as Tile),
        unvisited_count(st.visited, GRID_SIZE as int) + 1 < fuel,
        forall|t: Tile, k: int|
            #![trigger st.visited.contains(t), nb(t as int, k)]
            st.visited.contains(t) && !a.contains(t) && t != hex as Tile && 0 <= k < 6 && occ(b, nb(t as int, k))
                ==> st.visited.contains(nb(t as int, k) as Tile),
        forall|k: int| 0 <= k < i && occ(b, #[trigger] nb(hex, k)) ==> st.visited.contains(nb(hex, k) as Tile),
        forall|t: Tile| #[trigger] st.cut.contains(t) ==> c0.contains(t) || !a.contains(t),
    ensures
        st.visited.subset_of(cut_scan(b, st, hex, parent, i, children, fuel).0.visited),
        forall|t: Tile, k: int|
            #![trigger cut_scan(b, st, hex, parent, i, children, fuel).0.visited.contains(t), nb(t as int, k)]
            cut_scan(b, st, hex, parent, i, children, fuel).0.visited.contains(t) && !a.contains(t) && t != hex as Tile
                && 0 <= k < 6 && occ(b, nb(t as int, k)) ==> cut_scan(
                b,
                st,
                hex,
                parent,
                i,
                children,
                fuel,
            ).0.visited.contains(nb(t as int, k) as Tile),
        forall|k: int|
            0 <= k < 6 && occ(b, #[trigger] nb(hex, k)) ==> cut_scan(b, st, hex, parent, i, children, fuel).0.visited.contains(
                nb(hex, k) as Tile,
            ),
        forall|t: Tile| #[trigger] cut_scan(b, st, hex, parent, i, children, fuel).0.cut.contains(t) ==> c0.contains(t)
            || !a.contains(t),
    decreases fuel, 6 - i,
{
    lemma_unvisited_count_bounds(st.visited, GRID_SIZE as int);
    if i < 6 {
        let adj = nb(hex, i);
        crate::movegen::lemma_nb_ne(hex, i);
        if !occ(b, adj) || adj == parent {
            lemma_scan_closes(b, st, hex, parent, i + 1, children, fuel, a, c0);
        } else if st.visited.contains(adj as u16) {
            let st2 = CutModel { low: st.low.update(hex, min_u8(st.low[hex], st.num[adj])), ..st };
            lemma_scan_closes(b, st2, hex, parent, i + 1, children, fuel, a, c0);
        } else {
            let st2 = cut_visit(b, st, adj, hex, (fuel - 1) as nat);
            lemma_visit_closes(b, st, adj, hex, (fuel - 1) as nat);
            lemma_unvisited_count_mono(st.visited, st2.visited, GRID_SIZE as int);
            let st3 = CutModel { low: st2.low.update(hex, min_u8(st2.low[hex], st2.low[adj])), ..st2 };
            let st4 = if st3.low[adj] >= st3.num[hex] && hex != parent {
                CutModel { cut: st3.cut.insert(hex as u16), ..st3 }
            } else {
                st3
            };
            assert forall|t: Tile, k: int|
                #![trigger st4.visited.contains(t), nb(t as int, k)]
                st4.visited.contains(t) && !a.contains(t) && t != hex as Tile && 0 <= k < 6 && occ(b, nb(t as int, k))
                    implies st4.visited.contains(nb(t as int, k) as Tile) by {
                if st.visited.contains(t) {
                    assert(st.visited.contains(nb(t as int, k) as Tile));
                } else {
                    assert(st2.visited.contains(t));
                }
            }
            assert forall|k: int| 0 <= k < i + 1 && occ(b, #[trigger] nb(hex, k)) implies st4.visited.contains(
                nb(hex, k) as Tile,
            ) by {
                if k < i {
                    assert(st.visited.contains(nb(hex, k) as Tile));
                }
            }
            lemma_scan_closes(b, st4, hex, parent, i + 1, children + 1, fuel, a, c0);
        }
    }
}

/// Every walk avoiding `a` that starts in `w` ends in `w`, when each tile
/// of `w` outside `a` has all its occupied neighbours in `w`.
proof fn lemma_closed_holds_walks(b: Board, w: Set<Tile>, a: Set<Tile>, p: Seq<int>)
    requires
        hive_path(b, a, p),
        w.contains(p[0] as Tile),
        forall|t: Tile, k: int|
            #![trigger w.contains(t), nb(t as int, k)]
            w.contains(t) && !a.contains(t) && 0 <= k < 6 && occ(b, nb(t as int, k)) ==> w.contains(nb(t as int, k) as Tile),
    ensures
        w.contains(p.last() as Tile),
    decreases p.len(),
{
    if p.len() > 1 {
        let k = choose|k: int| 0 <= k < 6 && nb(p[0], k) == p[1];
        let t = p[0] as Tile;
        assert(t as int == p[0]);
        assert(nb(t as int, k) == p[1]);
        assert(hive_path(b, a, p.drop_first()));
        assert(passable(b, a, p.drop_first()[0]));
        assert(occ(b, p[1]));
        assert(w.contains(p[1] as Tile));
        lemma_closed_holds_walks(b, w, a, p.drop_first());
    }
}

/// The scan of the start tile `s` marks `s` only at the end, and counts a
/// second subtree only for an occupied neighbour that is not joined
/// (avoiding `s`) to the first occupied neighbour: once the first subtree is
/// searched, everything joined to that neighbour has been reached.
proof fn lemma_root_scan_sound(b: Board, st: CutModel, s: int, i: int, children: int, fuel: nat)
    requires
        0 <= s < GRID_SIZE,
        0 <= i <= 6,
        0 <= children,
        st.visited.contains(s as Tile),
        !st.cut.contains(s as Tile),
        unvisited_count(st.visited, GRID_SIZE as int) + 1 < fuel,
        children == 0 ==> forall|t: Tile| #[trigger] st.visited.contains(t) ==> t as int == s,
        children == 0 ==> forall|k: int| 0 <= k < i ==> !occ(b, #[trigger] nb(s, k)),
        children >= 1 ==> forall|p: Seq<int>|
            #[trigger] hive_path(b, Set::empty().insert(s as Tile), p) && p[0] == nb(s, first_occupied(b, s, 0))
                ==> st.visited.contains(p.last() as Tile),
        children >= 2 ==> exists|k: int|
            0 <= k < 6 && occ(b, #[trigger] nb(s, k)) && !joined(
                b,
                Set::empty().insert(s as Tile),
                nb(s, first_occupied(b, s, 0)),
                nb(s, k),
            ),
    ensures
        !cut_scan(b, st, s, s, i, children, fuel).0.cut.contains(s as Tile),
        cut_scan(b, st, s, s, i, children, fuel).1 >= 2 ==> exists|k: int|
            0 <= k < 6 && occ(b, #[trigger] nb(s, k)) && !joined(
                b,
                Set::empty().insert(s as Tile),
                nb(s, first_occupied(b, s, 0)),
                nb(s, k),
            ),
    decreases 6 - i,
{
    let one = Set::empty().insert(s as Tile);
    lemma_first_occupied(b, s, 0);
    lemma_unvisited_count_bounds(st.visited, GRID_SIZE as int);
    let i1 = first_occupied(b, s, 0);
    if i < 6 {
        let adj = nb(s, i);
        crate::movegen::lemma_nb_ne(s, i);
        if !occ(b, adj) || adj == s {
            lemma_root_scan_sound(b, st, s, i + 1, children, fuel);
        } else if st.visited.contains(adj as u16) {
            let st2 = CutModel { low: st.low.update(s, min_u8(st.low[s], st.num[adj])), ..st };
            assert(st2.visited == st.visited);
            lemma_root_scan_sound(b, st2, s, i + 1, children, fuel);
        } else {
            let st2 = cut_visit(b, st, adj, s, (fuel - 1) as nat);
            lemma_visit_closes(b, st, adj, s, (fuel - 1) as nat);
            lemma_unvisited_count_mono(st.visited, st2.visited, GRID_SIZE as int);
            if children == 0 {
                assert(i == i1);
                assert(st.visited =~= one);
                assert forall|p: Seq<int>| #[trigger] hive_path(b, one, p) && p[0] == nb(s, i1) implies st2.visited.contains(
                    p.last() as Tile,
                ) by {
                    lemma_closed_holds_walks(b, st2.visited, one, p);
                }
            } else if children == 1 {
                assert(!joined(b, one, nb(s, i1), adj)) by {
                    if joined(b, one, nb(s, i1), adj) {
                        let p = choose|p: Seq<int>| #[trigger] hive_path(b, one, p) && p[0] == nb(s, i1) && p.last() == adj;
                        assert(st.visited.contains(p.last() as Tile));
                    }
                }
                assert(occ(b, nb(s, i)));
            }
            let st3 = CutModel { low: st2.low.update(s, min_u8(st2.low[s], st2.low[adj])), ..st2 };
            assert(st3.visited == st2.visited);
            lemma_root_scan_sound(b, st3, s, i + 1, children + 1, fuel);
        }
    }
}

/// The start tile of the search is a cut vertex exactly when lifting its
/// piece splits the hive: when two of its occupied neighbours are joined by
/// no walk through the other pieces.
pub proof fn law_start_tile_is_cut_iff_lifting_it_splits_hive(b: Board)
    requires
        b.wf(),
    ensures
        cut_spec(b).contains(cut_start(b) as Tile) <==> exists|i: int, j: int|
            0 <= i < 6 && 0 <= j < 6 && occ(b, #[trigger] nb(cut_start(b), i)) && occ(b, #[trigger] nb(cut_start(b), j))
                && !joined(b, Set::empty().insert(cut_start(b) as Tile), nb(cut_start(b), i), nb(cut_start(b), j)),
{
    let s = cut_start(b);
    let one = Set::empty().insert(s as Tile);
    assert(0 <= s < GRID_SIZE) by {
        let fr = b.occupied_tiles[mover(b)].occupants@;
        if fr.len() > 0 {
            assert(b.occupied_tiles[mover(b)].occupants@.contains(fr[0]));
        }
    }
    if exists|i: int, j: int|
        0 <= i < 6 && 0 <= j < 6 && occ(b, #[trigger] nb(s, i)) && occ(b, #[trigger] nb(s, j)) && !joined(b, one, nb(s, i), nb(s, j)) {
        let (i, j) = choose|i: int, j: int|
            0 <= i < 6 && 0 <= j < 6 && occ(b, #[trigger] nb(s, i)) && occ(b, #[trigger] nb(s, j)) && !joined(b, one, nb(s, i), nb(s, j));
        law_start_tile_is_cut_when_lifting_it_splits_hive(b, i, j);
    }
    let fuel = (GRID_SIZE + 1) as nat;
    let st0 = cut_init();
    let st1 = CutModel {
        visited: st0.visited.insert(s as u16),
        num: st0.num.update(s, st0.visit_num),
        low: st0.low.update(s, st0.visit_num),
        visit_num: (st0.visit_num + 1) as u8,
        ..st0
    };
    crate::movegen::lemma_count_empty(GRID_SIZE as int);
    lemma_unvisited_count_insert(st0.visited, s as Tile, GRID_SIZE as int);
    lemma_root_scan_sound(b, st1, s, 0, 0, fuel);
    lemma_first_occupied(b, s, 0);
    let i1 = first_occupied(b, s, 0);
    if cut_spec(b).contains(s as Tile) {
        assert(cut_scan(b, st1, s, s, 0, 0, fuel).1 >= 2);
        let k = choose|k: int| 0 <= k < 6 && occ(b, #[trigger] nb(s, k)) && !joined(b, one, nb(s, i1), nb(s, k));
        assert(i1 < 6);
        assert(occ(b, nb(s, i1)) && occ(b, nb(s, k)));
    }
}

/// Two different neighbouring tiles of `t` hold pieces.
pub open spec fn touches_two(b: Board, t: int) -> bool {
    exists|i: int, j: int|
        0 <= i < 6 && 0 <= j < 6 && occ(b, #[trigger] nb(t, i)) && occ(b, #[trigger] nb(t, j)) && nb(t, i) != nb(t, j)
}

/// A visit of the occupied, unvisited `hex` (entered from an occupied
/// neighbour, or from itself at the root) marks as cut vertexes only tiles
/// that touch two pieces.
proof fn lemma_visit_marks_branching(b: Board, st: CutModel, hex: int, parent: int, fuel: nat)
    requires
        0 <= hex < GRID_SIZE,
        0 <= parent < GRID_SIZE,
        occ(b, hex),
        !st.visited.contains(hex as Tile),
        hex == parent || st.visited.contains(parent as Tile),
        hex != parent ==> occ(b, parent) && touching(parent, hex),
        unvisited_count(st.visited, GRID_SIZE as int) < fuel,
    ensures
        forall|t: Tile|
            #[trigger] cut_visit(b, st, hex, parent, fuel).cut.contains(t) && !st.cut.contains(t) ==> touches_two(b, t as int),
    decreases fuel, 7int,
{
    let st1 = CutModel {
        visited: st.visited.insert(hex as u16),
        num: st.num.update(hex, st.visit_num),
        low: st.low.update(hex, st.visit_num),
        visit_num: (st.visit_num + 1) as u8,
        ..st
    };
    lemma_unvisited_count_insert(st.visited, hex as Tile, GRID_SIZE as int);
    lemma_unvisited_count_bounds(st.visited.insert(hex as Tile), GRID_SIZE as int);
    lemma_scan_marks_branching(b, st1, hex, parent, 0, 0, fuel);
}

/// The scan of `hex`'s neighbours marks only tiles that touch two pieces,
/// and counts two subtrees only when `hex` itself touches two pieces.
proof fn lemma_scan_marks_branching(b: Board, st: CutModel, hex: int, parent: int, i: int, children: int, fuel: nat)
    requires
        0 <= hex < GRID_SIZE,
        0 <= parent < GRID_SIZE,
        0 <= i <= 6,
        0 <= children,
        occ(b, hex),
        st.visited.contains(hex as Tile),
        hex == parent || st.visited.contains(parent as Tile),
        hex != parent ==> occ(b, parent) && touching(parent, hex),
        unvisited_count(st.visited, GRID_SIZE as int) + 1 < fuel,
        children >= 1 ==> exists|k: int|
            0 <= k < 6 && occ(b, #[trigger] nb(hex, k)) && nb(hex, k) != parent && st.visited.contains(nb(hex, k) as Tile),
        children >= 2 ==> touches_two(b, hex),
    ensures
        forall|t: Tile|
            #[trigger] cut_scan(b, st, hex, parent, i, children, fuel).0.cut.contains(t) && !st.cut.contains(t)
                ==> touches_two(b, t as int),
        cut_scan(b, st, hex, parent, i, children, fuel).1 >= 2 ==> touches_two(b, hex),
    decreases fuel, 6 - i,
{
    lemma_unvisited_count_bounds(st.visited, GRID_SIZE as int);
    if i < 6 {
        let adj = nb(hex, i);
        crate::movegen::lemma_nb_ne(hex, i);
        if !occ(b, adj) || adj == parent {
            lemma_scan_marks_branching(b, st, hex, parent, i + 1, children, fuel);
            assert(cut_scan(b, st, hex, parent, i, children, fuel) == cut_scan(b, st, hex, parent, i + 1, children, fuel));
        } else if st.visited.contains(adj as u16) {
            let st2 = CutModel { low: st.low.update(hex, min_u8(st.low[hex], st.num[adj])), ..st };
            assert(st2.visited == st.visited);
            assert(st2.cut == st.cut);
            lemma_scan_marks_branching(b, st2, hex, parent, i + 1, children, fuel);
            assert(cut_scan(b, st, hex, parent, i, children, fuel) == cut_scan(b, st2, hex, parent, i + 1, children, fuel));
        } else {
            let st2 = cut_visit(b, st, adj, hex, (fuel - 1) as nat);
            if hex != parent {
                assert(st.visited.contains(parent as Tile));
            }
            lemma_visit_closes(b, st, adj, hex, (fuel - 1) as nat);
            assert(touching(hex, adj));
            lemma_visit_marks_branching(b, st, adj, hex, (fuel - 1) as nat);
            lemma_unvisited_count_mono(st.visited, st2.visited, GRID_SIZE as int);
            let st3 = CutModel { low: st2.low.update(hex, min_u8(st2.low[hex], st2.low[adj])), ..st2 };
            let st4 = if st3.low[adj] >= st3.num[hex] && hex != parent {
                CutModel { cut: st3.cut.insert(hex as u16), ..st3 }
            } else {
                st3
            };
            if hex != parent {
                lemma_touching_symmetric(parent, hex);
                let k = choose|k: int| 0 <= k < 6 && nb(hex, k) == parent;
                assert(occ(b, nb(hex, k)) && occ(b, nb(hex, i)) && nb(hex, k) != nb(hex, i));
                assert(touches_two(b, hex));
            }
            if children >= 1 {
                let k = choose|k: int|
                    0 <= k < 6 && occ(b, #[trigger] nb(hex, k)) && nb(hex, k) != parent && st.visited.contains(nb(hex, k) as Tile);
                assert(nb(hex, k) != nb(hex, i));
                assert(touches_two(b, hex));
            }
            assert(st4.visited.contains(nb(hex, i) as Tile));
            lemma_scan_marks_branching(b, st4, hex, parent, i + 1, children + 1, fuel);
            let res = cut_scan(b, st4, hex, parent, i + 1, children + 1, fuel).0;
            assert(cut_scan(b, st, hex, parent, i, children, fuel).0 == res);
            assert forall|t: Tile| #[trigger] res.cut.contains(t) && !st.cut.contains(t) implies touches_two(b, t as int) by {
                if st4.cut.contains(t) && !st2.cut.contains(t) {
                    assert(t == hex as Tile);
                }
            }
        }
    }
}

/// Every cut vertex touches two pieces: a piece with at most one piece
/// beside it can always be lifted without splitting the hive (when the
/// search starts from a tile holding a piece).
pub proof fn law_cut_tiles_touch_two_pieces(b: Board, t: Tile)
    requires
        b.wf(),
        occ(b, cut_start(b)),
        cut_spec(b).contains(t),
    ensures
        touches_two(b, t as int),
{
    let s = cut_start(b);
    assert(0 <= s < GRID_SIZE) by {
        let fr = b.occupied_tiles[mover(b)].occupants@;
        if fr.len() > 0 {
            assert(b.occupied_tiles[mover(b)].occupants@.contains(fr[0]));
        }
    }
    crate::movegen::lemma_count_empty(GRID_SIZE as int);
    lemma_visit_marks_branching(b, cut_init(), s, s, (GRID_SIZE + 1) as nat);
}

/// Lifting the piece on `t` splits the hive: two occupied tiles other than
/// `t` are joined by no walk through the pieces that avoids `t`.
pub open spec fn splits(b: Board, t: int) -> bool {
    exists|x: int, y: int|
        passable(b, Set::empty().insert(t as Tile), x) && passable(b, Set::empty().insert(t as Tile), y) && !#[trigger] joined(
            b,
            Set::empty().insert(t as Tile),
            x,
            y,
        )
}

/// A walk that starts in `w` and ends outside it steps out of `w` somewhere.
proof fn lemma_path_exit(b: Board, avoid: Set<Tile>, p: Seq<int>, w: Set<Tile>) -> (m: int)
    requires
        hive_path(b, avoid, p),
        w.contains(p[0] as Tile),
        !w.contains(p.last() as Tile),
    ensures
        0 <= m < p.len() - 1,
        w.contains(p[m] as Tile),
        !w.contains(p[m + 1] as Tile),
        passable(b, avoid, p[m]),
        passable(b, avoid, p[m + 1]),
        touching(p[m], p[m + 1]),
    decreases p.len(),
{
    let q = p.drop_first();
    assert(hive_path(b, avoid, q));
    assert(passable(b, avoid, q[0]));
    if !w.contains(p[1] as Tile) {
        0
    } else {
        let m = lemma_path_exit(b, avoid, q, w);
        assert(q[m] == p[m + 1] && q[m + 1] == p[m + 2]);
        m + 1
    }
}

/// The bookkeeping a search state keeps: arrays over the grid, every
/// visited tile on the grid and numbered below the next number, the next
/// number one more than the tiles visited, all within `allowed`, a set of
/// fewer than 255 tiles that holds every occupied tile.
pub open spec fn numbered_state(b: Board, st: CutModel, allowed: Set<Tile>) -> bool {
    &&& st.num.len() == GRID_SIZE
    &&& st.low.len() == GRID_SIZE
    &&& forall|x: Tile| #[trigger] st.visited.contains(x) ==> x < GRID_SIZE && st.num[x as int] < st.visit_num
    &&& st.visit_num == 1 + count_of(st.visited)
    &&& st.visited.subset_of(allowed)
    &&& count_of(allowed) < 255
    &&& forall|t: Tile| t < GRID_SIZE && #[trigger] occ(b, t as int) ==> allowed.contains(t)
}

/// A visit of the occupied, unvisited `hex` keeps the numbers and low
/// numbers of earlier tiles, keeps the bookkeeping, leaves `hex` with a low
/// number at most the number of any earlier tile next to a tile it newly
/// reached (but for the edge back to `parent`), and marks, apart from a
/// root `hex` itself, only tiles whose piece splits the hive when lifted.
proof fn lemma_visit_sound(b: Board, st: CutModel, hex: int, parent: int, fuel: nat, allowed: Set<Tile>)
    requires
        0 <= hex < GRID_SIZE,
        0 <= parent < GRID_SIZE,
        occ(b, hex),
        !st.visited.contains(hex as Tile),
        hex == parent || st.visited.contains(parent as Tile),
        hex != parent ==> occ(b, parent) && touching(parent, hex),
        unvisited_count(st.visited, GRID_SIZE as int) < fuel,
        numbered_state(b, st, allowed),
    ensures
        numbered_state(b, cut_visit(b, st, hex, parent, fuel), allowed),
        forall|x: Tile|
            #[trigger] st.visited.contains(x) ==> cut_visit(b, st, hex, parent, fuel).num[x as int] == st.num[x as int]
                && cut_visit(b, st, hex, parent, fuel).low[x as int] == st.low[x as int],
        forall|y: Tile, k: int|
            #![trigger cut_visit(b, st, hex, parent, fuel).visited.contains(y), nb(y as int, k)]
            cut_visit(b, st, hex, parent, fuel).visited.contains(y) && !st.visited.contains(y) && 0 <= k < 6 && occ(
                b,
                nb(y as int, k),
            ) && st.visited.contains(nb(y as int, k) as Tile) && !(y as int == hex && nb(y as int, k) == parent)
                ==> cut_visit(b, st, hex, parent, fuel).low[hex] <= st.num[nb(y as int, k)],
        forall|t: Tile|
            #[trigger] cut_visit(b, st, hex, parent, fuel).cut.contains(t) && !st.cut.contains(t) ==> (t as int == hex
                && hex == parent) || splits(b, t as int),
    decreases fuel, 7int,
{
    let st1 = CutModel {
        visited: st.visited.insert(hex as u16),
        num: st.num.update(hex, st.visit_num),
        low: st.low.update(hex, st.visit_num),
        visit_num: (st.visit_num + 1) as u8,
        ..st
    };
    assert(allowed.contains(hex as Tile));
    lemma_unvisited_count_insert(st.visited, hex as Tile, GRID_SIZE as int);
    lemma_unvisited_count_bounds(st.visited.insert(hex as Tile), GRID_SIZE as int);
    lemma_unvisited_count_mono(st.visited.insert(hex as Tile), allowed, GRID_SIZE as int);
    assert(st.visit_num + 1 < 256);
    assert(numbered_state(b, st1, allowed));
    lemma_scan_sound(b, st1, hex, parent, 0, 0, fuel, st.visited, st.cut, allowed);
}

/// The scan of `hex`'s neighbours from the `i`-th on, with `a` the tiles
/// visited before `hex` and `c0` the cut vertexes found before it (see
/// `lemma_visit_sound`).
proof fn lemma_scan_sound(
    b: Board,
    st: CutModel,
    hex: int,
    parent: int,
    i: int,
    children: int,
    fuel: nat,
    a: Set<Tile>,
    c0: Set<Tile>,
    allowed: Set<Tile>,
)
    requires
        0 <= hex < GRID_SIZE,
        0 <= parent < GRID_SIZE,
        0 <= i <= 6,
        occ(b, hex),
        st.visited.contains(hex as Tile),
        a.subset_of(st.visited),
        !a.contains(hex as Tile),
        hex == parent || a.contains(parent as Tile),
        hex != parent ==> occ(b, parent) && touching(parent, hex),
        unvisited_count(st.visited, GRID_SIZE as int) + 1 < fuel,
        numbered_state(b, st, allowed),
        forall|x: Tile| #[trigger] a.contains(x) ==> st.num[x as int] < st.num[hex],
        forall|t: Tile, k: int|
            #![trigger st.visited.contains(t), nb(t as int, k)]
            st.visited.contains(t) && !a.contains(t) && t != hex as Tile && 0 <= k < 6 && occ(b, nb(t as int, k))
                ==> st.visited.contains(nb(t as int, k) as Tile),
        forall|y: Tile, k: int|
            #![trigger st.visited.contains(y), nb(y as int, k)]
            st.visited.contains(y) && !a.contains(y) && 0 <= k < 6 && occ(b, nb(y as int, k)) && a.contains(
                nb(y as int, k) as Tile,
            ) && !(y as int == hex && nb(y as int, k) == parent) && (y as int == hex ==> k < i) ==> st.low[hex]
                <= st.num[nb(y as int, k)],
        forall|t: Tile| #[trigger] st.cut.contains(t) && !c0.contains(t) ==> splits(b, t as int),
    ensures
        st.visited.subset_of(cut_scan(b, st, hex, parent, i, children, fuel).0.visited),
        numbered_state(b, cut_scan(b, st, hex, parent, i, children, fuel).0, allowed),
        cut_scan(b, st, hex, parent, i, children, fuel).0.num[hex] == st.num[hex],
        forall|x: Tile|
            #[trigger] a.contains(x) ==> cut_scan(b, st, hex, parent, i, children, fuel).0.num[x as int] == st.num[x as int]
                && cut_scan(b, st, hex, parent, i, children, fuel).0.low[x as int] == st.low[x as int],
        forall|y: Tile, k: int|
            #![trigger cut_scan(b, st, hex, parent, i, children, fuel).0.visited.contains(y), nb(y as int, k)]
            cut_scan(b, st, hex, parent, i, children, fuel).0.visited.contains(y) && !a.contains(y) && 0 <= k < 6 && occ(
                b,
                nb(y as int, k),
            ) && a.contains(nb(y as int, k) as Tile) && !(y as int == hex && nb(y as int, k) == parent) ==> cut_scan(
                b,
                st,
                hex,
                parent,
                i,
                children,
                fuel,
            ).0.low[hex] <= st.num[nb(y as int, k)],
        forall|t: Tile|
            #[trigger] cut_scan(b, st, hex, parent, i, children, fuel).0.cut.contains(t) && !c0.contains(t) ==> splits(
                b,
                t as int,
            ),
    decreases fuel, 6 - i,
{
    lemma_unvisited_count_bounds(st.visited, GRID_SIZE as int);
    if i < 6 {
        let adj = nb(hex, i);
        crate::movegen::lemma_nb_ne(hex, i);
        if !occ(b, adj) || adj == parent {
            lemma_scan_sound(b, st, hex, parent, i + 1, children, fuel, a, c0, allowed);
        } else if st.visited.contains(adj as u16) {
            let st2 = CutModel { low: st.low.update(hex, min_u8(st.low[hex], st.num[adj])), ..st };
            assert(numbered_state(b, st2, allowed));
            lemma_scan_sound(b, st2, hex, parent, i + 1, children, fuel, a, c0, allowed);
        } else {
            let st2 = cut_visit(b, st, adj, hex, (fuel - 1) as nat);
            if hex != parent {
                assert(st.visited.contains(parent as Tile));
            }
            assert(touching(hex, adj));
            lemma_visit_closes(b, st, adj, hex, (fuel - 1) as nat);
            lemma_visit_sound(b, st, adj, hex, (fuel - 1) as nat, allowed);
            lemma_unvisited_count_mono(st.visited, st2.visited, GRID_SIZE as int);
            let st3 = CutModel { low: st2.low.update(hex, min_u8(st2.low[hex], st2.low[adj])), ..st2 };
            let st4 = if st3.low[adj] >= st3.num[hex] && hex != parent {
                CutModel { cut: st3.cut.insert(hex as u16), ..st3 }
            } else {
                st3
            };
            assert(st2.num[hex] == st.num[hex] && st2.low[hex] == st.low[hex]);
            if st3.low[adj] >= st3.num[hex] && hex != parent {
                let one = Set::empty().insert(hex as Tile);
                assert(!joined(b, one, adj, parent)) by {
                    if joined(b, one, adj, parent) {
                        let p = choose|p: Seq<int>| #[trigger] hive_path(b, one, p) && p[0] == adj && p.last() == parent;
                        let w = st2.visited.difference(st.visited);
                        let m = lemma_path_exit(b, one, p, w);
                        let y = p[m];
                        let z = p[m + 1];
                        let k = choose|k: int| 0 <= k < 6 && nb(y, k) == z;
                        let yt = y as Tile;
                        assert(yt as int == y);
                        assert(nb(yt as int, k) == z);
                        assert(st2.visited.contains(z as Tile));
                        assert(st.visited.contains(z as Tile));
                        assert(z != hex);
                        if !a.contains(z as Tile) {
                            lemma_touching_symmetric(y, z);
                            let k2 = choose|k2: int| 0 <= k2 < 6 && nb(z, k2) == y;
                            let zt = z as Tile;
                            assert(zt as int == z);
                            assert(nb(zt as int, k2) == y);
                            assert(st.visited.contains(y as Tile));
                        }
                        assert(a.contains(z as Tile));
                        assert(st2.low[adj] <= st.num[z]);
                        assert(st.num[z] < st.num[hex]);
                    }
                }
                assert(passable(b, one, adj) && passable(b, one, parent));
                assert(splits(b, hex));
            }
            assert(numbered_state(b, st4, allowed));
            assert forall|t: Tile, k: int|
                #![trigger st4.visited.contains(t), nb(t as int, k)]
                st4.visited.contains(t) && !a.contains(t) && t != hex as Tile && 0 <= k < 6 && occ(b, nb(t as int, k))
                    implies st4.visited.contains(nb(t as int, k) as Tile) by {
                if st.visited.contains(t) {
                    assert(st.visited.contains(nb(t as int, k) as Tile));
                } else {
                    assert(st2.visited.contains(t));
                }
            }
            assert forall|y: Tile, k: int|
                #![trigger st4.visited.contains(y), nb(y as int, k)]
                st4.visited.contains(y) && !a.contains(y) && 0 <= k < 6 && occ(b, nb(y as int, k)) && a.contains(
                    nb(y as int, k) as Tile,
                ) && !(y as int == hex && nb(y as int, k) == parent) && (y as int == hex ==> k < i + 1) implies st4.low[hex]
                    <= st4.num[nb(y as int, k)] by {
                let z = nb(y as int, k);
                assert(st.visited.contains(z as Tile));
                assert(st2.num[z] == st.num[z]);
                if st.visited.contains(y) {
                    if y as int == hex && k == i {
                        assert(!st.visited.contains(adj as Tile));
                    }
                    assert(st.low[hex] <= st.num[z]);
                } else {
                    assert(st2.visited.contains(y));
                    assert(st2.low[adj] <= st.num[z]);
                }
            }
            assert forall|x: Tile| #[trigger] a.contains(x) implies st4.num[x as int] < st4.num[hex] by {
                assert(st.visited.contains(x));
            }
            assert forall|t: Tile| #[trigger] st4.cut.contains(t) && !c0.contains(t) implies splits(b, t as int) by {
                if st4.cut.contains(t) && !st2.cut.contains(t) {
                    assert(t == hex as Tile);
                }
            }
            lemma_scan_sound(b, st4, hex, parent, i + 1, children + 1, fuel, a, c0, allowed);
            assert forall|x: Tile| #[trigger] a.contains(x) implies st4.num[x as int] == st.num[x as int] && st4.low[x as int]
                == st.low[x as int] by {
                assert(st.visited.contains(x));
            }
        }
    }
}

/// A visit of the occupied, unvisited `hex` numbers the tiles it newly
/// reaches from the next number on, keeps every earlier cut vertex, and
/// leaves `hex` with a low number that is its own number or the number of a
/// reached tile next to a newly reached one (not by the edge back to
/// `parent`).
proof fn lemma_visit_low_witness(b: Board, st: CutModel, hex: int, parent: int, fuel: nat, allowed: Set<Tile>)
    requires
        0 <= hex < GRID_SIZE,
        0 <= parent < GRID_SIZE,
        occ(b, hex),
        !st.visited.contains(hex as Tile),
        hex == parent || st.visited.contains(parent as Tile),
        hex != parent ==> occ(b, parent) && touching(parent, hex),
        unvisited_count(st.visited, GRID_SIZE as int) < fuel,
        numbered_state(b, st, allowed),
    ensures
        cut_visit(b, st, hex, parent, fuel).num[hex] == st.visit_num,
        st.cut.subset_of(cut_visit(b, st, hex, parent, fuel).cut),
        forall|x: Tile|
            #[trigger] cut_visit(b, st, hex, parent, fuel).visited.contains(x) && !st.visited.contains(x) ==> cut_visit(
                b,
                st,
                hex,
                parent,
                fuel,
            ).num[x as int] >= st.visit_num,
        cut_visit(b, st, hex, parent, fuel).low[hex] == cut_visit(b, st, hex, parent, fuel).num[hex] || exists|
            y: Tile,
            k: int,
        |
            #![trigger cut_visit(b, st, hex, parent, fuel).visited.contains(y), nb(y as int, k)]
            cut_visit(b, st, hex, parent, fuel).visited.contains(y) && !st.visited.contains(y) && 0 <= k < 6 && occ(
                b,
                nb(y as int, k),
            ) && cut_visit(b, st, hex, parent, fuel).visited.contains(nb(y as int, k) as Tile) && !(y as int == hex
                && nb(y as int, k) == parent) && cut_visit(b, st, hex, parent, fuel).num[nb(y as int, k)] == cut_visit(
                b,
                st,
                hex,
                parent,
                fuel,
            ).low[hex],
    decreases fuel, 7int,
{
    let st1 = CutModel {
        visited: st.visited.insert(hex as u16),
        num: st.num.update(hex, st.visit_num),
        low: st.low.update(hex, st.visit_num),
        visit_num: (st.visit_num + 1) as u8,
        ..st
    };
    assert(allowed.contains(hex as Tile));
    lemma_unvisited_count_insert(st.visited, hex as Tile, GRID_SIZE as int);
    lemma_unvisited_count_bounds(st.visited.insert(hex as Tile), GRID_SIZE as int);
    lemma_unvisited_count_mono(st.visited.insert(hex as Tile), allowed, GRID_SIZE as int);
    assert(numbered_state(b, st1, allowed));
    lemma_scan_low_witness(b, st1, hex, parent, 0, 0, fuel, st.visited, allowed);
    let st2 = cut_scan(b, st1, hex, parent, 0, 0, fuel).0;
    let res = cut_visit(b, st, hex, parent, fuel);
    assert(res.visited == st2.visited && res.num == st2.num && res.low == st2.low);
    if st2.low[hex] != st2.num[hex] {
        let (y, k) = choose|y: Tile, k: int|
            #![trigger st2.visited.contains(y), nb(y as int, k)]
            st2.visited.contains(y) && !st.visited.contains(y) && 0 <= k < 6 && occ(b, nb(y as int, k))
                && st2.visited.contains(nb(y as int, k) as Tile) && !(y as int == hex && nb(y as int, k) == parent)
                && st2.num[nb(y as int, k)] == st2.low[hex];
        assert(res.visited.contains(y) && !st.visited.contains(y) && 0 <= k < 6 && occ(b, nb(y as int, k))
            && res.visited.contains(nb(y as int, k) as Tile) && !(y as int == hex && nb(y as int, k) == parent)
            && res.num[nb(y as int, k)] == res.low[hex]);
    }
}

/// The scan of `hex`'s neighbours keeps the facts of
/// `lemma_visit_low_witness`, with `a` the tiles visited before `hex`.
proof fn lemma_scan_low_witness(
    b: Board,
    st: CutModel,
    hex: int,
    parent: int,
    i: int,
    children: int,
    fuel: nat,
    a: Set<Tile>,
    allowed: Set<Tile>,
)
    requires
        0 <= hex < GRID_SIZE,
        0 <= parent < GRID_SIZE,
        0 <= i <= 6,
        occ(b, hex),
        st.visited.contains(hex as Tile),
        a.subset_of(st.visited),
        !a.contains(hex as Tile),
        hex == parent || a.contains(parent as Tile),
        hex != parent ==> occ(b, parent) && touching(parent, hex),
        unvisited_count(st.visited, GRID_SIZE as int) + 1 < fuel,
        numbered_state(b, st, allowed),
        forall|x: Tile| #[trigger] st.visited.contains(x) && !a.contains(x) ==> st.num[x as int] >= st.num[hex],
        st.low[hex] == st.num[hex] || exists|y: Tile, k: int|
            #![trigger st.visited.contains(y), nb(y as int, k)]
            st.visited.contains(y) && !a.contains(y) && 0 <= k < 6 && occ(b, nb(y as int, k)) && st.visited.contains(
                nb(y as int, k) as Tile,
            ) && !(y as int == hex && nb(y as int, k) == parent) && st.num[nb(y as int, k)] == st.low[hex],
    ensures
        cut_scan(b, st, hex, parent, i, children, fuel).0.num[hex] == st.num[hex],
        st.cut.subset_of(cut_scan(b, st, hex, parent, i, children, fuel).0.cut),
        forall|x: Tile|
            #[trigger] cut_scan(b, st, hex, parent, i, children, fuel).0.visited.contains(x) && !a.contains(x) ==> cut_scan(
                b,
                st,
                hex,
                parent,
                i,
                children,
                fuel,
            ).0.num[x as int] >= st.num[hex],
        cut_scan(b, st, hex, parent, i, children, fuel).0.low[hex] == cut_scan(b, st, hex, parent, i, children, fuel).0.num[hex]
            || exists|y: Tile, k: int|
            #![trigger cut_scan(b, st, hex, parent, i, children, fuel).0.visited.contains(y), nb(y as int, k)]
            cut_scan(b, st, hex, parent, i, children, fuel).0.visited.contains(y) && !a.contains(y) && 0 <= k < 6 && occ(
                b,
                nb(y as int, k),
            ) && cut_scan(b, st, hex, parent, i, children, fuel).0.visited.contains(nb(y as int, k) as Tile) && !(y as int
                == hex && nb(y as int, k) == parent) && cut_scan(b, st, hex, parent, i, children, fuel).0.num[nb(
                y as int,
                k,
            )] == cut_scan(b, st, hex, parent, i, children, fuel).0.low[hex],
    decreases fuel, 6 - i,
{
    lemma_unvisited_count_bounds(st.visited, GRID_SIZE as int);
    if i < 6 {
        let adj = nb(hex, i);
        crate::movegen::lemma_nb_ne(hex, i);
        if !occ(b, adj) || adj == parent {
            lemma_scan_low_witness(b, st, hex, parent, i + 1, children, fuel, a, allowed);
        } else if st.visited.contains(adj as u16) {
            let st2 = CutModel { low: st.low.update(hex, min_u8(st.low[hex], st.num[adj])), ..st };
            assert(numbered_state(b, st2, allowed));
            if st.num[adj] < st.low[hex] {
                let ht = hex as Tile;
                assert(ht as int == hex);
                assert(nb(ht as int, i) == adj);
                assert(st2.visited.contains(ht) && !a.contains(ht) && 0 <= i < 6 && occ(b, nb(ht as int, i))
                    && st2.visited.contains(nb(ht as int, i) as Tile) && !(ht as int == hex && nb(ht as int, i) == parent)
                    && st2.num[nb(ht as int, i)] == st2.low[hex]);
            }
            lemma_scan_low_witness(b, st2, hex, parent, i + 1, children, fuel, a, allowed);
        } else {
            let st2 = cut_visit(b, st, adj, hex, (fuel - 1) as nat);
            if hex != parent {
                assert(st.visited.contains(parent as Tile));
            }
            assert(touching(hex, adj));
            lemma_visit_closes(b, st, adj, hex, (fuel - 1) as nat);
            lemma_visit_sound(b, st, adj, hex, (fuel - 1) as nat, allowed);
            lemma_visit_low_witness(b, st, adj, hex, (fuel - 1) as nat, allowed);
            lemma_unvisited_count_mono(st.visited, st2.visited, GRID_SIZE as int);
            let st3 = CutModel { low: st2.low.update(hex, min_u8(st2.low[hex], st2.low[adj])), ..st2 };
            let st4 = if st3.low[adj] >= st3.num[hex] && hex != parent {
                CutModel { cut: st3.cut.insert(hex as u16), ..st3 }
            } else {
                st3
            };
            assert(st2.num[hex] == st.num[hex] && st2.low[hex] == st.low[hex]);
            assert(numbered_state(b, st4, allowed));
            assert(st.num[hex] < st.visit_num);
            assert forall|x: Tile| #[trigger] st4.visited.contains(x) && !a.contains(x) implies st4.num[x as int] >= st4.num[hex] by {
                if st.visited.contains(x) {
                    assert(st.num[x as int] >= st.num[hex]);
                }
            }
            if st2.low[adj] < st.low[hex] {
                if st2.low[adj] == st2.num[adj] {
                    let ht = hex as Tile;
                    assert(ht as int == hex);
                    assert(nb(ht as int, i) == adj);
                    assert(st4.visited.contains(ht) && !a.contains(ht) && 0 <= i < 6 && occ(b, nb(ht as int, i))
                        && st4.visited.contains(nb(ht as int, i) as Tile) && !(ht as int == hex && nb(ht as int, i)
                        == parent) && st4.num[nb(ht as int, i)] == st4.low[hex]);
                } else {
                    let (y, k) = choose|y: Tile, k: int|
                        #![trigger st2.visited.contains(y), nb(y as int, k)]
                        st2.visited.contains(y) && !st.visited.contains(y) && 0 <= k < 6 && occ(b, nb(y as int, k))
                            && st2.visited.contains(nb(y as int, k) as Tile) && !(y as int == adj && nb(y as int, k)
                            == hex) && st2.num[nb(y as int, k)] == st2.low[adj];
                    assert(y != hex as Tile);
                    assert(st4.visited.contains(y) && !a.contains(y) && 0 <= k < 6 && occ(b, nb(y as int, k))
                        && st4.visited.contains(nb(y as int, k) as Tile) && !(y as int == hex && nb(y as int, k)
                        == parent) && st4.num[nb(y as int, k)] == st4.low[hex]);
                }
            } else if st.low[hex] != st.num[hex] {
                let (y, k) = choose|y: Tile, k: int|
                    #![trigger st.visited.contains(y), nb(y as int, k)]
                    st.visited.contains(y) && !a.contains(y) && 0 <= k < 6 && occ(b, nb(y as int, k))
                        && st.visited.contains(nb(y as int, k) as Tile) && !(y as int == hex && nb(y as int, k) == parent)
                        && st.num[nb(y as int, k)] == st.low[hex];
                assert(st4.visited.contains(y) && !a.contains(y) && 0 <= k < 6 && occ(b, nb(y as int, k))
                    && st4.visited.contains(nb(y as int, k) as Tile) && !(y as int == hex && nb(y as int, k) == parent)
                    && st4.num[nb(y as int, k)] == st4.low[hex]);
            }
            lemma_scan_low_witness(b, st4, hex, parent, i + 1, children + 1, fuel, a, allowed);
        }
    }
}

/// The cut vertexes found so far are kept by a visit.
proof fn lemma_visit_cut_grows(b: Board, st: CutModel, hex: int, parent: int, fuel: nat)
    ensures
        st.cut.subset_of(cut_visit(b, st, hex, parent, fuel).cut),
    decreases fuel, 7int,
{
    if fuel > 0 {
        let st1 = CutModel {
            visited: st.visited.insert(hex as u16),
            num: st.num.update(hex, st.visit_num),
            low: st.low.update(hex, st.visit_num),
            visit_num: (st.visit_num + 1) as u8,
            ..st
        };
        lemma_scan_cut_grows(b, st1, hex, parent, 0, 0, fuel);
    }
}

/// The cut vertexes found so far are kept by a scan.
proof fn lemma_scan_cut_grows(b: Board, st: CutModel, hex: int, parent: int, i: int, children: int, fuel: nat)
    ensures
        st.cut.subset_of(cut_scan(b, st, hex, parent, i, children, fuel).0.cut),
    decreases fuel, 6 - i,
{
    if !(i >= 6 || i < 0 || fuel == 0) {
        let adj = nb(hex, i);
        if !occ(b, adj) || adj == parent {
            lemma_scan_cut_grows(b, st, hex, parent, i + 1, children, fuel);
        } else if st.visited.contains(adj as u16) {
            let st2 = CutModel { low: st.low.update(hex, min_u8(st.low[hex], st.num[adj])), ..st };
            lemma_scan_cut_grows(b, st2, hex, parent, i + 1, children, fuel);
        } else {
            let st2 = cut_visit(b, st, adj, hex, (fuel - 1) as nat);
            lemma_visit_cut_grows(b, st, adj, hex, (fuel - 1) as nat);
            let st3 = CutModel { low: st2.low.update(hex, min_u8(st2.low[hex], st2.low[adj])), ..st2 };
            let st4 = if st3.low[adj] >= st3.num[hex] && hex != parent {
                CutModel { cut: st3.cut.insert(hex as u16), ..st3 }
            } else {
                st3
            };
            lemma_scan_cut_grows(b, st4, hex, parent, i + 1, children + 1, fuel);
        }
    }
}

/// A passable tile is joined to itself.
proof fn lemma_joined_refl(b: Board, avoid: Set<Tile>, x: int)
    requires
        passable(b, avoid, x),
    ensures
        joined(b, avoid, x, x),
{
    assert(hive_path(b, avoid, seq![x]));
}

/// A joined pair extended by a step to a passable neighbour.
proof fn lemma_joined_step(b: Board, avoid: Set<Tile>, x: int, y: int, z: int)
    requires
        joined(b, avoid, x, y),
        passable(b, avoid, z),
        touching(y, z),
    ensures
        joined(b, avoid, x, z),
{
    let p = choose|p: Seq<int>| #[trigger] hive_path(b, avoid, p) && p[0] == x && p.last() == y;
    lemma_path_push(b, avoid, p, z);
    assert(p.push(z)[0] == x && p.push(z).last() == z);
}

/// Both ends of a walk are passable.
proof fn lemma_path_ends(b: Board, avoid: Set<Tile>, p: Seq<int>)
    requires
        hive_path(b, avoid, p),
    ensures
        passable(b, avoid, p[0]),
        passable(b, avoid, p.last()),
    decreases p.len(),
{
    if p.len() > 1 {
        lemma_path_ends(b, avoid, p.drop_first());
    }
}

/// Joined tiles stay joined when fewer tiles are to be avoided, and are
/// passable.
proof fn lemma_joined_avoid_less(b: Board, big: Set<Tile>, small: Set<Tile>, x: int, y: int)
    requires
        small.subset_of(big),
        joined(b, big, x, y),
    ensures
        joined(b, small, x, y),
        passable(b, big, x),
        passable(b, big, y),
{
    let p = choose|p: Seq<int>| #[trigger] hive_path(b, big, p) && p[0] == x && p.last() == y;
    lemma_path_avoid_less(b, big, small, p);
    lemma_path_ends(b, big, p);
}

/// The visit of a tile `hex` that is not `t`, joined to `s` avoiding `t`,
/// from a state where every visited tile but `t` is joined to `s` avoiding
/// `t`: unless `t` gets marked, the same holds afterwards.
proof fn lemma_visit_keeps_joined_to_start(
    b: Board,
    st: CutModel,
    hex: int,
    parent: int,
    fuel: nat,
    allowed: Set<Tile>,
    t: int,
    s: int,
)
    requires
        0 <= hex < GRID_SIZE,
        0 <= parent < GRID_SIZE,
        0 <= s < GRID_SIZE,
        occ(b, hex),
        !st.visited.contains(hex as Tile),
        hex == parent || st.visited.contains(parent as Tile),
        hex != parent ==> occ(b, parent) && touching(parent, hex),
        hex == s || st.visited.contains(s as Tile),
        unvisited_count(st.visited, GRID_SIZE as int) < fuel,
        numbered_state(b, st, allowed),
        0 <= t < GRID_SIZE,
        hex != t,
        joined(b, Set::empty().insert(t as Tile), s, hex),
        forall|u: Tile| #[trigger] st.visited.contains(u) && u as int != t ==> joined(b, Set::empty().insert(t as Tile), s, u as int),
    ensures
        !cut_visit(b, st, hex, parent, fuel).cut.contains(t as Tile) ==> forall|u: Tile|
            #[trigger] cut_visit(b, st, hex, parent, fuel).visited.contains(u) && u as int != t ==> joined(
                b,
                Set::empty().insert(t as Tile),
                s,
                u as int,
            ),
    decreases fuel, 7int,
{
    let st1 = CutModel {
        visited: st.visited.insert(hex as u16),
        num: st.num.update(hex, st.visit_num),
        low: st.low.update(hex, st.visit_num),
        visit_num: (st.visit_num + 1) as u8,
        ..st
    };
    assert(allowed.contains(hex as Tile));
    lemma_unvisited_count_insert(st.visited, hex as Tile, GRID_SIZE as int);
    lemma_unvisited_count_bounds(st.visited.insert(hex as Tile), GRID_SIZE as int);
    lemma_unvisited_count_mono(st.visited.insert(hex as Tile), allowed, GRID_SIZE as int);
    assert(numbered_state(b, st1, allowed));
    lemma_scan_keeps_joined_to_start(b, st1, hex, parent, 0, 0, fuel, st.visited, allowed, t, s);
    lemma_scan_cut_grows(b, st1, hex, parent, 0, 0, fuel);
}

/// The scan of a tile `hex` that is not `t` (see
/// `lemma_visit_keeps_joined_to_start`).
proof fn lemma_scan_keeps_joined_to_start(
    b: Board,
    st: CutModel,
    hex: int,
    parent: int,
    i: int,
    children: int,
    fuel: nat,
    a: Set<Tile>,
    allowed: Set<Tile>,
    t: int,
    s: int,
)
    requires
        0 <= hex < GRID_SIZE,
        0 <= parent < GRID_SIZE,
        0 <= s < GRID_SIZE,
        0 <= i <= 6,
        occ(b, hex),
        st.visited.contains(hex as Tile),
        st.visited.contains(s as Tile),
        a.subset_of(st.visited),
        !a.contains(hex as Tile),
        hex == parent || a.contains(parent as Tile),
        hex != parent ==> occ(b, parent) && touching(parent, hex),
        unvisited_count(st.visited, GRID_SIZE as int) + 1 < fuel,
        numbered_state(b, st, allowed),
        0 <= t < GRID_SIZE,
        hex != t,
        joined(b, Set::empty().insert(t as Tile), s, hex),
        !st.cut.contains(t as Tile) ==> forall|u: Tile|
            #[trigger] st.visited.contains(u) && u as int != t ==> joined(b, Set::empty().insert(t as Tile), s, u as int),
    ensures
        !cut_scan(b, st, hex, parent, i, children, fuel).0.cut.contains(t as Tile) ==> forall|u: Tile|
            #[trigger] cut_scan(b, st, hex, parent, i, children, fuel).0.visited.contains(u) && u as int != t ==> joined(
                b,
                Set::empty().insert(t as Tile),
                s,
                u as int,
            ),
    decreases fuel, 6 - i,
{
    let one = Set::empty().insert(t as Tile);
    lemma_unvisited_count_bounds(st.visited, GRID_SIZE as int);
    if i < 6 {
        let adj = nb(hex, i);
        crate::movegen::lemma_nb_ne(hex, i);
        if !occ(b, adj) || adj == parent {
            lemma_scan_keeps_joined_to_start(b, st, hex, parent, i + 1, children, fuel, a, allowed, t, s);
            assert(cut_scan(b, st, hex, parent, i, children, fuel) == cut_scan(b, st, hex, parent, i + 1, children, fuel));
        } else if st.visited.contains(adj as u16) {
            let st2 = CutModel { low: st.low.update(hex, min_u8(st.low[hex], st.num[adj])), ..st };
            assert(numbered_state(b, st2, allowed));
            lemma_scan_keeps_joined_to_start(b, st2, hex, parent, i + 1, children, fuel, a, allowed, t, s);
            assert(cut_scan(b, st, hex, parent, i, children, fuel) == cut_scan(b, st2, hex, parent, i + 1, children, fuel));
        } else {
            let st2 = cut_visit(b, st, adj, hex, (fuel - 1) as nat);
            if hex != parent {
                assert(st.visited.contains(parent as Tile));
            }
            assert(touching(hex, adj));
            lemma_visit_closes(b, st, adj, hex, (fuel - 1) as nat);
            lemma_visit_sound(b, st, adj, hex, (fuel - 1) as nat, allowed);
            lemma_visit_cut_grows(b, st, adj, hex, (fuel - 1) as nat);
            lemma_unvisited_count_mono(st.visited, st2.visited, GRID_SIZE as int);
            if !st.cut.contains(t as Tile) {
                if adj == t {
                    lemma_visit_keeps_joined_at(b, st, adj, hex, (fuel - 1) as nat, allowed, s);
                } else {
                    lemma_joined_avoid_less(b, one, one, s, hex);
                    lemma_joined_step(b, one, s, hex, adj);
                    lemma_visit_keeps_joined_to_start(b, st, adj, hex, (fuel - 1) as nat, allowed, t, s);
                }
            }
            let st3 = CutModel { low: st2.low.update(hex, min_u8(st2.low[hex], st2.low[adj])), ..st2 };
            let st4 = if st3.low[adj] >= st3.num[hex] && hex != parent {
                CutModel { cut: st3.cut.insert(hex as u16), ..st3 }
            } else {
                st3
            };
            assert(numbered_state(b, st4, allowed));
            assert(!st4.cut.contains(t as Tile) ==> !st2.cut.contains(t as Tile));
            lemma_scan_keeps_joined_to_start(b, st4, hex, parent, i + 1, children + 1, fuel, a, allowed, t, s);
            assert(cut_scan(b, st, hex, parent, i, children, fuel) == cut_scan(b, st4, hex, parent, i + 1, children + 1, fuel));
        }
    }
}

/// The visit of `t` itself, entered from a visited occupied neighbour, from
/// a state where every visited tile but `t` is joined to the start `s`
/// avoiding `t`: unless `t` gets marked, every subtree of `t` reaches back
/// above `t`, and the same holds afterwards.
proof fn lemma_visit_keeps_joined_at(b: Board, st: CutModel, hex: int, parent: int, fuel: nat, allowed: Set<Tile>, s: int)
    requires
        0 <= hex < GRID_SIZE,
        0 <= parent < GRID_SIZE,
        0 <= s < GRID_SIZE,
        occ(b, hex),
        occ(b, s),
        hex != s,
        !st.visited.contains(hex as Tile),
        st.visited.contains(parent as Tile),
        st.visited.contains(s as Tile),
        hex != parent,
        occ(b, parent) && touching(parent, hex),
        unvisited_count(st.visited, GRID_SIZE as int) < fuel,
        numbered_state(b, st, allowed),
        forall|u: Tile|
            #[trigger] st.visited.contains(u) && u as int != hex ==> joined(b, Set::empty().insert(hex as Tile), s, u as int),
    ensures
        !cut_visit(b, st, hex, parent, fuel).cut.contains(hex as Tile) ==> forall|u: Tile|
            #[trigger] cut_visit(b, st, hex, parent, fuel).visited.contains(u) && u as int != hex ==> joined(
                b,
                Set::empty().insert(hex as Tile),
                s,
                u as int,
            ),
    decreases fuel, 7int,
{
    let st1 = CutModel {
        visited: st.visited.insert(hex as u16),
        num: st.num.update(hex, st.visit_num),
        low: st.low.update(hex, st.visit_num),
        visit_num: (st.visit_num + 1) as u8,
        ..st
    };
    assert(allowed.contains(hex as Tile));
    lemma_unvisited_count_insert(st.visited, hex as Tile, GRID_SIZE as int);
    lemma_unvisited_count_bounds(st.visited.insert(hex as Tile), GRID_SIZE as int);
    lemma_unvisited_count_mono(st.visited.insert(hex as Tile), allowed, GRID_SIZE as int);
    assert(numbered_state(b, st1, allowed));
    lemma_scan_keeps_joined_at(b, st1, hex, parent, 0, 0, fuel, st.visited, allowed, s);
    lemma_scan_cut_grows(b, st1, hex, parent, 0, 0, fuel);
}

/// The scan of `t` itself (see `lemma_visit_keeps_joined_at`).
proof fn lemma_scan_keeps_joined_at(
    b: Board,
    st: CutModel,
    hex: int,
    parent: int,
    i: int,
    children: int,
    fuel: nat,
    a: Set<Tile>,
    allowed: Set<Tile>,
    s: int,
)
    requires
        0 <= hex < GRID_SIZE,
        0 <= parent < GRID_SIZE,
        0 <= s < GRID_SIZE,
        0 <= i <= 6,
        occ(b, hex),
        occ(b, s),
        hex != s,
        st.visited.contains(hex as Tile),
        a.subset_of(st.visited),
        !a.contains(hex as Tile),
        a.contains(parent as Tile),
        hex != parent,
        occ(b, parent) && touching(parent, hex),
        unvisited_count(st.visited, GRID_SIZE as int) + 1 < fuel,
        numbered_state(b, st, allowed),
        !st.cut.contains(hex as Tile) ==> forall|u: Tile|
            #[trigger] st.visited.contains(u) && u as int != hex ==> joined(b, Set::empty().insert(hex as Tile), s, u as int),
    ensures
        !cut_scan(b, st, hex, parent, i, children, fuel).0.cut.contains(hex as Tile) ==> forall|u: Tile|
            #[trigger] cut_scan(b, st, hex, parent, i, children, fuel).0.visited.contains(u) && u as int != hex ==> joined(
                b,
                Set::empty().insert(hex as Tile),
                s,
                u as int,
            ),
    decreases fuel, 6 - i,
{
    let one = Set::empty().insert(hex as Tile);
    lemma_unvisited_count_bounds(st.visited, GRID_SIZE as int);
    if i < 6 {
        let adj = nb(hex, i);
        crate::movegen::lemma_nb_ne(hex, i);
        if !occ(b, adj) || adj == parent {
            lemma_scan_keeps_joined_at(b, st, hex, parent, i + 1, children, fuel, a, allowed, s);
            assert(cut_scan(b, st, hex, parent, i, children, fuel) == cut_scan(b, st, hex, parent, i + 1, children, fuel));
        } else if st.visited.contains(adj as u16) {
            let st2 = CutModel { low: st.low.update(hex, min_u8(st.low[hex], st.num[adj])), ..st };
            assert(numbered_state(b, st2, allowed));
            lemma_scan_keeps_joined_at(b, st2, hex, parent, i + 1, children, fuel, a, allowed, s);
            assert(cut_scan(b, st, hex, parent, i, children, fuel) == cut_scan(b, st2, hex, parent, i + 1, children, fuel));
        } else {
            let st2 = cut_visit(b, st, adj, hex, (fuel - 1) as nat);
            assert(touching(hex, adj));
            lemma_visit_closes(b, st, adj, hex, (fuel - 1) as nat);
            lemma_visit_sound(b, st, adj, hex, (fuel - 1) as nat, allowed);
            lemma_visit_low_witness(b, st, adj, hex, (fuel - 1) as nat, allowed);
            lemma_visit_stays_joined(b, st, adj, hex, (fuel - 1) as nat);
            lemma_visit_cut_grows(b, st, adj, hex, (fuel - 1) as nat);
            lemma_unvisited_count_mono(st.visited, st2.visited, GRID_SIZE as int);
            let st3 = CutModel { low: st2.low.update(hex, min_u8(st2.low[hex], st2.low[adj])), ..st2 };
            let st4 = if st3.low[adj] >= st3.num[hex] && hex != parent {
                CutModel { cut: st3.cut.insert(hex as u16), ..st3 }
            } else {
                st3
            };
            assert(st2.num[hex] == st.num[hex]);
            assert(st.num[hex] < st.visit_num);
            if !st4.cut.contains(hex as Tile) {
                assert(st2.low[adj] < st.num[hex]);
                assert(st2.low[adj] != st2.num[adj]);
                let (y, k) = choose|y: Tile, k: int|
                    #![trigger st2.visited.contains(y), nb(y as int, k)]
                    st2.visited.contains(y) && !st.visited.contains(y) && 0 <= k < 6 && occ(b, nb(y as int, k))
                        && st2.visited.contains(nb(y as int, k) as Tile) && !(y as int == adj && nb(y as int, k) == hex)
                        && st2.num[nb(y as int, k)] == st2.low[adj];
                let z = nb(y as int, k);
                assert(st.visited.contains(z as Tile));
                assert(z != hex);
                assert(joined(b, one, s, z));
                assert(st.visited.subset_of(st2.visited));
                assert(joined(b, st.visited, adj, y as int));
                assert(one.subset_of(st.visited));
                lemma_joined_avoid_less(b, st.visited, one, adj, y as int);
                lemma_touching_symmetric(y as int, z);
                lemma_joined_step(b, one, s, z, y as int);
                lemma_joined_refl(b, one, s);
                lemma_joined_refl(b, one, adj);
                lemma_joined_chain(b, one, y as int, adj, adj);
                lemma_joined_chain(b, one, y as int, s, s);
                lemma_joined_chain(b, one, s, y as int, adj);
                lemma_joined_chain(b, one, adj, s, s);
                assert forall|u: Tile| #[trigger] st2.visited.contains(u) && u as int != hex implies joined(b, one, s, u as int) by {
                    if !st.visited.contains(u) {
                        assert(joined(b, st.visited, adj, u as int));
                        lemma_joined_avoid_less(b, st.visited, one, adj, u as int);
                        lemma_joined_chain(b, one, s, adj, u as int);
                    }
                }
            }
            assert(numbered_state(b, st4, allowed));
            lemma_scan_keeps_joined_at(b, st4, hex, parent, i + 1, children + 1, fuel, a, allowed, s);
            assert(cut_scan(b, st, hex, parent, i, children, fuel) == cut_scan(b, st4, hex, parent, i + 1, children + 1, fuel));
        }
    }
}

/// Every tile other than the start tile whose piece splits the hive when
/// lifted is a cut vertex, when the hive is one piece (every piece is
/// joined to the start tile, which holds a piece) and fewer than 254 tiles
/// hold pieces.
pub proof fn law_splitting_tiles_are_cut(b: Board, t: Tile)
    requires
        b.wf(),
        few_pieces(b),
        occ(b, cut_start(b)),
        t < GRID_SIZE,
        t as int != cut_start(b),
        forall|x: int| 0 <= x < GRID_SIZE && occ(b, x) ==> #[trigger] joined(b, Set::empty(), cut_start(b), x),
        splits(b, t as int),
    ensures
        cut_spec(b).contains(t),
{
    let allowed = lemma_search_space(b);
    let s = cut_start(b);
    let one = Set::empty().insert(t as Tile);
    crate::movegen::lemma_count_empty(GRID_SIZE as int);
    let st0 = cut_init();
    assert(st0.visited =~= Set::<Tile>::empty());
    assert(numbered_state(b, st0, allowed));
    let fuel = (GRID_SIZE + 1) as nat;
    let res = cut_visit(b, st0, s, s, fuel);
    lemma_joined_refl(b, one, s);
    lemma_visit_keeps_joined_to_start(b, st0, s, s, fuel, allowed, t as int, s);
    lemma_visit_closes(b, st0, s, s, fuel);
    if !res.cut.contains(t) {
        let (x, y) = choose|x: int, y: int|
            passable(b, one, x) && passable(b, one, y) && !#[trigger] joined(b, one, x, y);
        assert forall|w: int| passable(b, one, w) implies #[trigger] joined(b, one, s, w) by {
            assert(joined(b, Set::empty(), s, w));
            let p = choose|p: Seq<int>| #[trigger] hive_path(b, Set::empty(), p) && p[0] == s && p.last() == w;
            lemma_closed_holds_walks(b, res.visited, Set::empty(), p);
            let wt = w as Tile;
            assert(wt as int == w);
            assert(res.visited.contains(wt));
        }
        assert(joined(b, one, s, x));
        assert(joined(b, one, s, y));
        lemma_joined_chain(b, one, x, s, y);
    }
}

/// The tail of a walk from index `j` on is a walk.
proof fn lemma_path_suffix(b: Board, avoid: Set<Tile>, p: Seq<int>, j: int)
    requires
        hive_path(b, avoid, p),
        0 <= j < p.len(),
    ensures
        hive_path(b, avoid, p.subrange(j, p.len() as int)),
    decreases j,
{
    if j > 0 {
        lemma_path_suffix(b, avoid, p.drop_first(), j - 1);
        assert(p.drop_first().subrange(j - 1, p.drop_first().len() as int) =~= p.subrange(j, p.len() as int));
    } else {
        assert(p.subrange(0, p.len() as int) =~= p);
    }
}

/// A walk through the pieces that never enters `s` avoids `s`.
proof fn lemma_path_missing_avoids(b: Board, p: Seq<int>, s: int)
    requires
        hive_path(b, Set::empty(), p),
        forall|j: int| 0 <= j < p.len() ==> #[trigger] p[j] != s,
        0 <= s < GRID_SIZE,
    ensures
        hive_path(b, Set::empty().insert(s as Tile), p),
    decreases p.len(),
{
    assert(passable(b, Set::empty(), p[0]));
    assert(p[0] != s);
    if p.len() > 1 {
        assert forall|j: int| 0 <= j < p.drop_first().len() implies #[trigger] p.drop_first()[j] != s by {
            assert(p.drop_first()[j] == p[j + 1]);
        }
        lemma_path_missing_avoids(b, p.drop_first(), s);
    }
}

/// A walk from `s` to another tile leaves `s` by one of its occupied
/// neighbours, and that neighbour is joined to the walk's end avoiding `s`.
proof fn lemma_walk_leaves_start(b: Board, p: Seq<int>, s: int) -> (i: int)
    requires
        hive_path(b, Set::empty(), p),
        p[0] == s,
        p.last() != s,
        0 <= s < GRID_SIZE,
    ensures
        0 <= i < 6,
        occ(b, nb(s, i)),
        joined(b, Set::empty().insert(s as Tile), nb(s, i), p.last()),
    decreases p.len(),
{
    let q = p.drop_first();
    assert(hive_path(b, Set::empty(), q));
    assert(q.last() == p.last());
    if exists|j: int| 0 <= j < q.len() && q[j] == s {
        let j = choose|j: int| 0 <= j < q.len() && q[j] == s;
        lemma_path_suffix(b, Set::empty(), q, j);
        let r = q.subrange(j, q.len() as int);
        assert(r.last() == p.last());
        lemma_walk_leaves_start(b, r, s)
    } else {
        lemma_path_missing_avoids(b, q, s);
        let i = choose|i: int| 0 <= i < 6 && nb(p[0], i) == p[1];
        lemma_path_ends(b, Set::empty(), q);
        assert(q[0] == nb(s, i));
        assert(joined(b, Set::empty().insert(s as Tile), nb(s, i), p.last()));
        i
    }
}

/// When the hive is one piece (every piece joined to the start tile, which
/// holds a piece), the start tile of the search is a cut vertex exactly
/// when lifting its piece splits the hive.
pub proof fn law_start_tile_is_cut_iff_it_splits_hive(b: Board)
    requires
        b.wf(),
        occ(b, cut_start(b)),
        forall|x: int| 0 <= x < GRID_SIZE && occ(b, x) ==> #[trigger] joined(b, Set::empty(), cut_start(b), x),
    ensures
        cut_spec(b).contains(cut_start(b) as Tile) <==> splits(b, cut_start(b)),
{
    let s = cut_start(b);
    let one = Set::empty().insert(s as Tile);
    law_start_tile_is_cut_iff_lifting_it_splits_hive(b);
    assert(0 <= s < GRID_SIZE) by {
        let fr = b.occupied_tiles[mover(b)].occupants@;
        if fr.len() > 0 {
            assert(b.occupied_tiles[mover(b)].occupants@.contains(fr[0]));
        }
    }
    if cut_spec(b).contains(s as Tile) {
        let (i, j) = choose|i: int, j: int|
            0 <= i < 6 && 0 <= j < 6 && occ(b, #[trigger] nb(s, i)) && occ(b, #[trigger] nb(s, j)) && !joined(
                b,
                one,
                nb(s, i),
                nb(s, j),
            );
        crate::movegen::lemma_nb_ne(s, i);
        crate::movegen::lemma_nb_ne(s, j);
        assert(passable(b, one, nb(s, i)) && passable(b, one, nb(s, j)));
        assert(splits(b, s));
    }
    if splits(b, s) {
        let (x, y) = choose|x: int, y: int| passable(b, one, x) && passable(b, one, y) && !#[trigger] joined(b, one, x, y);
        assert(joined(b, Set::empty(), s, x));
        assert(joined(b, Set::empty(), s, y));
        let px = choose|p: Seq<int>| #[trigger] hive_path(b, Set::empty(), p) && p[0] == s && p.last() == x;
        let py = choose|p: Seq<int>| #[trigger] hive_path(b, Set::empty(), p) && p[0] == s && p.last() == y;
        let i = lemma_walk_leaves_start(b, px, s);
        let j = lemma_walk_leaves_start(b, py, s);
        if joined(b, one, nb(s, i), nb(s, j)) {
            lemma_joined_chain(b, one, x, nb(s, i), nb(s, j));
            lemma_joined_refl(b, one, x);
            lemma_joined_chain(b, one, nb(s, j), x, x);
            lemma_joined_chain(b, one, x, nb(s, j), y);
            assert(false);
        }
    }
}

/// The tiles the search may reach: the occupied ones and the start tile;
/// fewer than 255 of them when few pieces are on the board.
proof fn lemma_search_space(b: Board) -> (allowed: Set<Tile>)
    requires
        b.wf(),
        b.occupied_tiles[0].occupants@.len() + b.occupied_tiles[1].occupants@.len() < 254,
    ensures
        allowed.contains(cut_start(b) as Tile),
        count_of(allowed) < 255,
        forall|t: Tile| t < GRID_SIZE && #[trigger] occ(b, t as int) ==> allowed.contains(t),
        0 <= cut_start(b) < GRID_SIZE,
{
    let start = cut_start(b);
    assert(0 <= start < GRID_SIZE) by {
        let fr = b.occupied_tiles[mover(b)].occupants@;
        if fr.len() > 0 {
            assert(b.occupied_tiles[mover(b)].occupants@.contains(fr[0]));
        }
    }
    let l0 = b.occupied_tiles[0].occupants@;
    let l1 = b.occupied_tiles[1].occupants@;
    let occs = (l0 + l1).to_set();
    let allowed = occs.insert(start as Tile);
    assert((l0 + l1).no_duplicates()) by {
        assert forall|x: int, y: int| 0 <= x < (l0 + l1).len() && 0 <= y < (l0 + l1).len() && x != y implies (l0
            + l1)[x] != (l0 + l1)[y] by {
            if x < l0.len() && y >= l0.len() {
                assert(b.occupied_tiles[0].occupants@.contains(l0[x]));
                assert(b.occupied_tiles[1].occupants@.contains(l1[y - l0.len()]));
            } else if x >= l0.len() && y < l0.len() {
                assert(b.occupied_tiles[1].occupants@.contains(l1[x - l0.len()]));
                assert(b.occupied_tiles[0].occupants@.contains(l0[y]));
            }
        }
    }
    assert forall|x: int| 0 <= x < (l0 + l1).len() implies (l0 + l1)[x] < GRID_SIZE by {
        if x < l0.len() {
            assert(b.occupied_tiles[0].occupants@.contains(l0[x]));
        } else {
            assert(b.occupied_tiles[1].occupants@.contains(l1[x - l0.len()]));
        }
    }
    lemma_count_of_list(l0 + l1);
    if !occs.contains(start as Tile) {
        lemma_unvisited_count_insert(occs, start as Tile, GRID_SIZE as int);
    } else {
        assert(allowed =~= occs);
    }
    assert forall|t: Tile| t < GRID_SIZE && #[trigger] occ(b, t as int) implies allowed.contains(t) by {
        let c = crate::piece::color_index(b.world@[t as int].spec_color());
        assert(b.world@[t as int].wf());
        assert(b.occupied_tiles[c].occupants@.contains(t));
        if c == 0 {
            let j = choose|j: int| 0 <= j < l0.len() && l0[j] == t;
            assert((l0 + l1)[j] == t);
        } else {
            let j = choose|j: int| 0 <= j < l1.len() && l1[j] == t;
            assert((l0 + l1)[j + l0.len()] == t);
        }
    }
    allowed
}

/// Every cut vertex other than the start tile is one whose piece splits the
/// hive when lifted: two occupied tiles besides it are joined by no walk
/// through the other pieces (when the start tile holds a piece, and fewer
/// than 254 tiles hold pieces, so that visit numbers fit in a byte).
pub proof fn law_cut_tiles_split_hive(b: Board, t: Tile)
    requires
        b.wf(),
        few_pieces(b),
        occ(b, cut_start(b)),
        cut_spec(b).contains(t),
        t as int != cut_start(b),
    ensures
        splits(b, t as int),
{
    let allowed = lemma_search_space(b);
    let s = cut_start(b);
    crate::movegen::lemma_count_empty(GRID_SIZE as int);
    let st0 = cut_init();
    assert(st0.visited =~= Set::<Tile>::empty());
    assert(numbered_state(b, st0, allowed));
    lemma_visit_sound(b, st0, s, s, (GRID_SIZE + 1) as nat, allowed);
}

/// Number of tiles of `s` on the grid.
pub open spec fn count_of(s: Set<Tile>) -> int {
    GRID_SIZE - unvisited_count(s, GRID_SIZE as int)
}

/// A superset has no more unreached tiles, and strictly fewer when it
/// holds a grid tile the subset lacks.
pub proof fn lemma_unvisited_count_mono(v: Set<Tile>, w: Set<Tile>, n: int)
    requires
        v.subset_of(w),
        0 <= n <= GRID_SIZE,
    ensures
        unvisited_count(w, n) <= unvisited_count(v, n),
        forall|x: Tile| x < n && w.contains(x) && !v.contains(x) ==> unvisited_count(w, n) < unvisited_count(v, n),
    decreases n,
{
    if n > 0 {
        lemma_unvisited_count_mono(v, w, n - 1);
    }
}

/// The grid tiles of a list without repetition number its length.
pub proof fn lemma_count_of_list(s: Seq<Tile>)
    requires
        s.no_duplicates(),
        forall|i: int| 0 <= i < s.len() ==> s[i] < GRID_SIZE,
    ensures
        count_of(s.to_set()) == s.len(),
    decreases s.len(),
{
    if s.len() == 0 {
        assert(s.to_set() =~= Set::<Tile>::empty());
        crate::movegen::lemma_count_empty(GRID_SIZE as int);
    } else {
        let p = s.drop_last();
        let x = s.last();
        assert(p.no_duplicates());
        lemma_count_of_list(p);
        assert(s =~= p.push(x));
        p.lemma_push_to_set_commute(x);
        assert(!p.contains(x)) by {
            if p.contains(x) {
                let j = choose|j: int| 0 <= j < p.len() && p[j] == x;
                assert(s[j] == s[s.len() - 1]);
            }
        }
        lemma_unvisited_count_insert(p.to_set(), x, GRID_SIZE as int);
    }
}

/// Working state of the search.
struct CutSearch {
    visited: TileSet,
    immovable: TileSet,
    num: Vec<u8>,
    low: Vec<u8>,
    visit_num: u8,
}

impl CutSearch {
    /// The state as a model.
    closed spec fn model(&self) -> CutModel {
        CutModel {
            visited: self.visited.members(),
            cut: self.immovable.members(),
            num: self.num@,
            low: self.low@,
            visit_num: self.visit_num,
        }
    }

    /// The arrays cover the grid and the visit number counts the visits.
    closed spec fn inv(&self) -> bool {
        &&& self.num@.len() == GRID_SIZE
        &&& self.low@.len() == GRID_SIZE
        &&& self.visit_num == 1 + count_of(self.visited.members())
    }
}

impl Board {
    /// Visit `hex` from `parent` (see `cut_visit`).
    fn cut_visit_exec(
        &self,
        st: &mut CutSearch,
        hex: Tile,
        parent: Tile,
        Ghost(fuel): Ghost<nat>,
        Ghost(allowed): Ghost<Set<Tile>>,
    )
        requires
            self.wf(),
            old(st).inv(),
            hex < GRID_SIZE,
            parent < GRID_SIZE,
            !old(st).visited.members().contains(hex),
            unvisited_count(old(st).visited.members(), GRID_SIZE as int) < fuel,
            allowed.contains(hex),
            old(st).visited.members().subset_of(allowed),
            count_of(allowed) < 255,
            forall|t: Tile| t < GRID_SIZE && #[trigger] occ(*self, t as int) ==> allowed.contains(t),
        ensures
            final(st).inv(),
            final(st).model() == cut_visit(*self, old(st).model(), hex as int, parent as int, fuel),
            old(st).visited.members().subset_of(final(st).visited.members()),
            final(st).visited.members().subset_of(allowed),
            final(st).visited.members().contains(hex),
        decreases fuel,
    {
        let ghost m0 = st.model();
        proof {
            lemma_unvisited_count_insert(st.visited.members(), hex, GRID_SIZE as int);
            lemma_unvisited_count_mono(st.visited.members().insert(hex), allowed, GRID_SIZE as int);
            lemma_unvisited_count_bounds(st.visited.members(), GRID_SIZE as int);
        }
        let ghost vm = st.visited.members();
        st.visited.set(hex);
        assert forall|t: Tile| #[trigger] st.visited.members().contains(t) == vm.insert(hex).contains(t) by {
            assert(st.visited.members().contains(t) == st.visited.has(t as int));
        }
        assert(st.visited.members() =~= vm.insert(hex));
        let vn = st.visit_num;
        st.num.set(hex as usize, vn);
        st.low.set(hex as usize, vn);
        st.visit_num = vn + 1;
        let ghost m1 = st.model();
        assert(m1 == CutModel {
            visited: m0.visited.insert(hex),
            num: m0.num.update(hex as int, m0.visit_num),
            low: m0.low.update(hex as int, m0.visit_num),
            visit_num: (m0.visit_num + 1) as u8,
            ..m0
        });
        let root = hex == parent;
        let nbrs = adjacent(hex);
        let mut children: usize = 0;
        let mut i: usize = 0;
        while i < 6
            invariant
                self.wf(),
                st.inv(),
                0 <= i <= 6,
                0 <= children <= i,
                hex < GRID_SIZE,
                parent < GRID_SIZE,
                root == (hex == parent),
                fuel > 0,
                forall|j: int| 0 <= j < 6 ==> nbrs@[j] == #[trigger] nb(hex as int, j),
                forall|j: int| 0 <= j < 6 ==> nbrs@[j] < GRID_SIZE,
                cut_scan(*self, st.model(), hex as int, parent as int, i as int, children as int, fuel)
                    == cut_scan(*self, m1, hex as int, parent as int, 0, 0, fuel),
                m0.visited.insert(hex).subset_of(st.visited.members()),
                st.visited.members().subset_of(allowed),
                count_of(allowed) < 255,
                unvisited_count(m0.visited, GRID_SIZE as int) < fuel,
                !m0.visited.contains(hex),
                forall|t: Tile| t < GRID_SIZE && #[trigger] occ(*self, t as int) ==> allowed.contains(t),
            decreases 6 - i,
        {
            let adj = nbrs[i];
            let ghost mi = st.model();
            assert(adj != hex) by {
                crate::movegen::lemma_nb_ne(hex as int, i as int);
            }
            if !self.occupied(adj) || adj == parent {
            } else {
                assert(st.visited.members().contains(adj) == st.visited.has(adj as int));
                if st.visited.get(adj) {
                    let lh = st.low[hex as usize];
                    let na = st.num[adj as usize];
                    let m = if lh < na {
                        lh
                    } else {
                        na
                    };
                    st.low.set(hex as usize, m);
                } else {
                    proof {
                        lemma_unvisited_count_mono(m0.visited.insert(hex), st.visited.members(), GRID_SIZE as int);
                        lemma_unvisited_count_insert(m0.visited, hex, GRID_SIZE as int);
                        assert(allowed.contains(adj));
                    }
                    self.cut_visit_exec(st, adj, hex, Ghost((fuel - 1) as nat), Ghost(allowed));
                    let lh = st.low[hex as usize];
                    let la = st.low[adj as usize];
                    let m = if lh < la {
                        lh
                    } else {
                        la
                    };
                    st.low.set(hex as usize, m);
                    if st.low[adj as usize] >= st.num[hex as usize] && !root {
                        let ghost im = st.immovable.members();
                        st.immovable.set(hex);
                        assert forall|t: Tile| #[trigger] st.immovable.members().contains(t) == im.insert(hex).contains(t) by {
                            assert(st.immovable.members().contains(t) == st.immovable.has(t as int));
                        }
                        assert(st.immovable.members() =~= im.insert(hex));
                    }
                    children += 1;
                }
            }
            i += 1;
        }
        if root && children > 1 {
            let ghost im = st.immovable.members();
            st.immovable.set(hex);
            assert forall|t: Tile| #[trigger] st.immovable.members().contains(t) == im.insert(hex).contains(t) by {
                assert(st.immovable.members().contains(t) == st.immovable.has(t as int));
            }
            assert(st.immovable.members() =~= im.insert(hex));
        }
    }

    /// The tiles whose piece would split the hive if lifted (see
    /// `cut_spec`). Boards have fewer than 254 pieces on top of stacks.
    pub fn find_cut_vertexes(&self) -> (r: TileSet)
        requires
            self.wf(),
            self.occupied_tiles[0].occupants@.len() + self.occupied_tiles[1].occupants@.len() < 254,
        ensures
            r.members() == cut_spec(*self),
    {
        let me = self.color().index();
        let start = match self.occupied_tiles[me].first() {
            Some(t) => *t,
            None => TILE_ZERO,
        };
        assert(start < GRID_SIZE) by {
            if self.occupied_tiles[me as int].occupants@.len() > 0 {
                assert(self.occupied_tiles[me as int].occupants@.contains(start));
            }
        }
        let mut st = CutSearch {
            visited: TileSet::new(),
            immovable: TileSet::new(),
            num: vec![0u8; GRID_SIZE],
            low: vec![0u8; GRID_SIZE],
            visit_num: 1,
        };
        let ghost l0 = self.occupied_tiles[0].occupants@;
        let ghost l1 = self.occupied_tiles[1].occupants@;
        let ghost occs = (l0 + l1).to_set();
        let ghost allowed = occs.insert(start);
        proof {
            assert(st.visited.members() =~= Set::<Tile>::empty());
            assert(st.immovable.members() =~= Set::<Tile>::empty());
            crate::movegen::lemma_count_empty(GRID_SIZE as int);
            assert(st.num@ =~= cut_init().num);
            assert(st.low@ =~= cut_init().low);
            assert(st.model() == cut_init());
            assert((l0 + l1).no_duplicates()) by {
                assert forall|a: int, b: int| 0 <= a < (l0 + l1).len() && 0 <= b < (l0 + l1).len() && a != b
                    implies (l0 + l1)[a] != (l0 + l1)[b] by {
                    if a < l0.len() && b >= l0.len() {
                        assert(self.occupied_tiles[0].occupants@.contains(l0[a]));
                        assert(self.occupied_tiles[1].occupants@.contains(l1[b - l0.len()]));
                    } else if a >= l0.len() && b < l0.len() {
                        assert(self.occupied_tiles[1].occupants@.contains(l1[a - l0.len()]));
                        assert(self.occupied_tiles[0].occupants@.contains(l0[b]));
                    }
                }
            }
            assert forall|i: int| 0 <= i < (l0 + l1).len() implies (l0 + l1)[i] < GRID_SIZE by {
                if i < l0.len() {
                    assert(self.occupied_tiles[0].occupants@.contains(l0[i]));
                } else {
                    assert(self.occupied_tiles[1].occupants@.contains(l1[i - l0.len()]));
                }
            }
            lemma_count_of_list(l0 + l1);
            if !occs.contains(start) {
                lemma_unvisited_count_insert(occs, start, GRID_SIZE as int);
            } else {
                assert(allowed =~= occs);
            }
            assert forall|t: Tile| t < GRID_SIZE && #[trigger] occ(*self, t as int) implies allowed.contains(t) by {
                let c = crate::piece::color_index(self.world@[t as int].spec_color());
                assert(self.world@[t as int].wf());
                assert(self.occupied_tiles[c].occupants@.contains(t));
                if c == 0 {
                    let j = choose|j: int| 0 <= j < l0.len() && l0[j] == t;
                    assert((l0 + l1)[j] == t);
                } else {
                    let j = choose|j: int| 0 <= j < l1.len() && l1[j] == t;
                    assert((l0 + l1)[j + l0.len()] == t);
                }
            }
        }
        self.cut_visit_exec(&mut st, start, start, Ghost((GRID_SIZE + 1) as nat), Ghost(allowed));
        st.immovable
    }
}

} // verus!
