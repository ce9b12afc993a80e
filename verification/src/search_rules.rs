//! The integer rules of the search: node types of children, the window
//! narrowed by mate distance and by the transposition table, killer moves,
//! and the widening of a failed aspiration window.

use vstd::prelude::*;
use crate::action::Action;
use crate::engine::{Depth, INF, mate_in_spec};
use crate::eval::Value;
use crate::tt::{TEntry, TTFlag};
use vstd::arithmetic::power2::{pow2, lemma_pow2_unfold, lemma_pow2_strictly_increases, lemma2_to64, lemma2_to64_rest};

verus! {

/// What a node of the search is expected to be: on the principal
/// variation, failing low (all moves searched) or failing high (a cut).
#[derive(Clone, Copy, Debug, PartialEq, Eq, Structural)]
pub enum NodeType {
    Pv,
    All,
    Cut,
}

/// The expected type of the child searched `move_index`-th from a node of
/// type `nt`.
pub open spec fn child_type_spec(nt: NodeType, move_index: int) -> NodeType {
    match nt {
        NodeType::Pv => if move_index == 0 {
            NodeType::Pv
        } else {
            NodeType::Cut
        },
        NodeType::Cut => if move_index == 0 {
            NodeType::All
        } else {
            NodeType::Cut
        },
        NodeType::All => NodeType::Cut,
    }
}

/// The expected type of the child (see `child_type_spec`).
pub fn child_node_type(nt: NodeType, move_index: usize) -> (r: NodeType)
    ensures
        r == child_type_spec(nt, move_index as int),
{
    match nt {
        NodeType::Pv => if move_index == 0 {
            NodeType::Pv
        } else {
            NodeType::Cut
        },
        NodeType::Cut => if move_index == 0 {
            NodeType::All
        } else {
            NodeType::Cut
        },
        NodeType::All => NodeType::Cut,
    }
}

/// The expected type of a child searched again with the full window after
/// a reduced search failed: principal variation nodes stay so, the others
/// change.
pub fn research_node_type(nt: NodeType) -> (r: NodeType)
    ensures
        nt == NodeType::Pv ==> r == NodeType::Pv,
        nt == NodeType::All ==> r == NodeType::Cut,
        nt == NodeType::Cut ==> r == NodeType::All,
{
    match nt {
        NodeType::Pv => NodeType::Pv,
        NodeType::All => NodeType::Cut,
        NodeType::Cut => NodeType::All,
    }
}

/// The larger of two values.
pub open spec fn vmax(a: Value, b: Value) -> Value {
    if a >= b {
        a
    } else {
        b
    }
}

/// The smaller of two values.
pub open spec fn vmin(a: Value, b: Value) -> Value {
    if a <= b {
        a
    } else {
        b
    }
}

/// The window at `ply` narrowed by the mate distance: no result can be
/// worse than being mated now or better than mating at the next ply.
pub fn mate_window(ply: Depth, alpha: Value, beta: Value) -> (r: (Value, Value))
    requires
        ply < 255,
    ensures
        r.0 == vmax(alpha, (-mate_in_spec(ply)) as Value),
        r.1 == vmin(beta, mate_in_spec((ply + 1) as Depth) as Value),
{
    let lo = crate::engine::mated_in(ply);
    let hi = crate::engine::mate_in(ply + 1);
    let a = if alpha >= lo {
        alpha
    } else {
        lo
    };
    let b = if beta <= hi {
        beta
    } else {
        hi
    };
    (a, b)
}

/// What a table entry tells a search node: a value to return at once, or
/// the window to search.
#[derive(Clone, Copy, Debug, PartialEq, Eq, Structural)]
pub enum TtProbe {
    Cutoff(Value),
    Window(Value, Value),
}

/// The window `alpha..beta` narrowed by an entry searched at least as
/// deep: a lower bound raises `alpha`, an upper bound lowers `beta`.
pub open spec fn narrowed(e: TEntry, alpha: Value, beta: Value) -> (Value, Value) {
    if e.flag == TTFlag::LowerBound {
        (vmax(alpha, e.value), beta)
    } else if e.flag == TTFlag::UpperBound {
        (alpha, vmin(beta, e.value))
    } else {
        (alpha, beta)
    }
}

/// What the entry `e` tells a search node of depth `depth` at `ply`: an
/// entry searched at least as deep narrows the window; below the root an
/// empty window returns its lower end, and an exact value is returned.
pub open spec fn tt_search_spec(e: Option<TEntry>, depth: Depth, ply: Depth, alpha: Value, beta: Value) -> TtProbe {
    match e {
        Some(e) => if e.depth >= depth {
            let (a, b) = narrowed(e, alpha, beta);
            if ply != 0 && a >= b {
                TtProbe::Cutoff(a)
            } else if ply != 0 && e.flag == TTFlag::Exact {
                TtProbe::Cutoff(e.value)
            } else {
                TtProbe::Window(a, b)
            }
        } else {
            TtProbe::Window(alpha, beta)
        },
        None => TtProbe::Window(alpha, beta),
    }
}

/// What a table entry tells a search node (see `tt_search_spec`).
pub fn tt_search(e: Option<TEntry>, depth: Depth, ply: Depth, alpha: Value, beta: Value) -> (r: TtProbe)
    ensures
        r == tt_search_spec(e, depth, ply, alpha, beta),
{
    match e {
        Some(e) => {
            if e.depth >= depth {
                let (a, b) = narrow(e, alpha, beta);
                if ply != 0 && a >= b {
                    TtProbe::Cutoff(a)
                } else if ply != 0 && e.flag == TTFlag::Exact {
                    TtProbe::Cutoff(e.value)
                } else {
                    TtProbe::Window(a, b)
                }
            } else {
                TtProbe::Window(alpha, beta)
            }
        },
        None => TtProbe::Window(alpha, beta),
    }
}

/// What the entry `e` tells a node of the quiescence search at `ply`:
/// every entry narrows the window; below the root, an exact value or an
/// empty window returns the entry's value.
pub open spec fn tt_quiescence_spec(e: Option<TEntry>, ply: Depth, alpha: Value, beta: Value) -> TtProbe {
    match e {
        Some(e) => {
            let (a, b) = narrowed(e, alpha, beta);
            if ply != 0 && (e.flag == TTFlag::Exact || a >= b) {
                TtProbe::Cutoff(e.value)
            } else {
                TtProbe::Window(a, b)
            }
        },
        None => TtProbe::Window(alpha, beta),
    }
}

/// What a table entry tells a quiescence node (see `tt_quiescence_spec`).
pub fn tt_quiescence(e: Option<TEntry>, ply: Depth, alpha: Value, beta: Value) -> (r: TtProbe)
    ensures
        r == tt_quiescence_spec(e, ply, alpha, beta),
{
    match e {
        Some(e) => {
            let (a, b) = narrow(e, alpha, beta);
            if ply != 0 && (e.flag == TTFlag::Exact || a >= b) {
                TtProbe::Cutoff(e.value)
            } else {
                TtProbe::Window(a, b)
            }
        },
        None => TtProbe::Window(alpha, beta),
    }
}

/// The window narrowed by an entry (see `narrowed`).
fn narrow(e: TEntry, alpha: Value, beta: Value) -> (r: (Value, Value))
    ensures
        r == narrowed(e, alpha, beta),
{
    if e.flag == TTFlag::LowerBound {
        (if alpha >= e.value {
            alpha
        } else {
            e.value
        }, beta)
    } else if e.flag == TTFlag::UpperBound {
        (alpha, if beta <= e.value {
            beta
        } else {
            e.value
        })
    } else {
        (alpha, beta)
    }
}

/// Two killer moves with their counts.
pub type Killers = [(Action, u8); 2];

/// No killer moves yet.
pub fn no_killers() -> (r: Killers)
    ensures
        r@[0].1 == 0 && r@[1].1 == 0,
        r@[0].0 == Action::spec_from_kind(crate::action::ActionKind::Pass),
        r@[1].0 == Action::spec_from_kind(crate::action::ActionKind::Pass),
{
    [(Action::Pass(), 0), (Action::Pass(), 0)]
}

/// The killers after `mv` caused a cut: its count goes up (modulo 256) if
/// it is one of them; otherwise it replaces the first of those with the
/// lowest count, with count 1.
pub open spec fn killers_after(k: Seq<(Action, u8)>, mv: Action) -> Seq<(Action, u8)> {
    if k[0].0 == mv {
        k.update(0, (mv, ((k[0].1 + 1) % 256) as u8))
    } else if k[1].0 == mv {
        k.update(1, (mv, ((k[1].1 + 1) % 256) as u8))
    } else if k[1].1 < k[0].1 {
        k.update(1, (mv, 1u8))
    } else {
        k.update(0, (mv, 1u8))
    }
}

/// Remembers `mv` as a killer (see `killers_after`).
pub fn remember_killer(killers: &mut Killers, mv: Action)
    ensures
        final(killers)@ == killers_after(old(killers)@, mv),
{
    if killers[0].0 == mv {
        killers[0].1 = killers[0].1.wrapping_add(1);
    } else if killers[1].0 == mv {
        killers[1].1 = killers[1].1.wrapping_add(1);
    } else if killers[1].1 < killers[0].1 {
        killers[1] = (mv, 1);
    } else {
        killers[0] = (mv, 1);
    }
    assert(killers@ =~= killers_after(old(killers)@, mv));
}

/// The count of `mv` among the killers, 0 if it is none of them.
pub open spec fn killer_count_spec(k: Seq<(Action, u8)>, mv: Action) -> u8 {
    if k[0].0 == mv {
        k[0].1
    } else if k[1].0 == mv {
        k[1].1
    } else {
        0u8
    }
}

/// The count of `mv` among the killers (see `killer_count_spec`).
pub fn killer_count(killers: &Killers, mv: Action) -> (r: u8)
    ensures
        r == killer_count_spec(killers@, mv),
{
    if killers[0].0 == mv {
        killers[0].1
    } else if killers[1].0 == mv {
        killers[1].1
    } else {
        0
    }
}

/// The window after the `i`-th failed aspiration search with half width
/// `w` returned `value`: the failing side moves out by `w * 2^i`, at least
/// past `value`, within `-INF..INF`; `None` when the value was inside.
pub open spec fn widen_spec(alpha: int, beta: int, value: int, w: int, i: nat) -> Option<(int, int)> {
    if value <= alpha {
        let a = alpha - w * pow2(i);
        let a2 = if a <= value - 1 {
            a
        } else {
            value - 1
        };
        Some((if a2 >= -INF {
            a2
        } else {
            -INF as int
        }, beta))
    } else if value >= beta {
        let b = beta + w * pow2(i);
        let b2 = if b >= value + 1 {
            b
        } else {
            value + 1
        };
        Some((alpha, if b2 <= INF {
            b2
        } else {
            INF as int
        }))
    } else {
        None
    }
}

/// Two to the power `n`, for `n` below 40, is at most 2^39, and doubles
/// from one `n` to the next.
proof fn lemma_pow_two_bound(n: nat)
    requires
        n < 40,
    ensures
        1 <= pow2(n) <= 0x80_0000_0000,
        pow2(n + 1) == 2 * pow2(n),
{
    lemma2_to64_rest();
    lemma2_to64();
    if n < 39 {
        lemma_pow2_strictly_increases(n, 39);
    }
    if n > 0 {
        lemma_pow2_strictly_increases(0, n);
    }
    lemma_pow2_unfold(n + 1);
}

/// The window after a failed aspiration search (see `widen_spec`).
pub fn widen_window(alpha: i64, beta: i64, value: Value, w: i64, i: u32) -> (r: Option<(i64, i64)>)
    requires
        -0x4000_0000_0000_0000 <= alpha <= 0x4000_0000_0000_0000,
        -0x4000_0000_0000_0000 <= beta <= 0x4000_0000_0000_0000,
        0 <= w <= 1000,
        i < 40,
    ensures
        match r {
            Some((a, b)) => widen_spec(alpha as int, beta as int, value as int, w as int, i as nat)
                == Some((a as int, b as int)),
            None => widen_spec(alpha as int, beta as int, value as int, w as int, i as nat) is None,
        },
{
    let mut step: i64 = w;
    let mut j: u32 = 0;
    proof {
        lemma2_to64();
    }
    while j < i
        invariant
            0 <= j <= i < 40,
            0 <= w <= 1000,
            step == w * pow2(j as nat),
        decreases i - j,
    {
        proof {
            lemma_pow_two_bound(j as nat);
            lemma_pow_two_bound((j + 1) as nat);
            let pj = pow2(j as nat);
            assert(w * pj * 2 == w * pow2((j + 1) as nat) && 0 <= w * pj * 2 <= 1000 * 0x80_0000_0000)
                by (nonlinear_arith)
                requires
                    0 <= w <= 1000,
                    1 <= pj,
                    2 * pj == pow2((j + 1) as nat),
                    pow2((j + 1) as nat) <= 0x80_0000_0000,
            ;
        }
        step = step * 2;
        j += 1;
    }
    proof {
        lemma_pow_two_bound(i as nat);
        let pi = pow2(i as nat);
        assert(0 <= w * pi <= 1000 * 0x80_0000_0000) by (nonlinear_arith)
            requires
                0 <= w <= 1000,
                1 <= pi <= 0x80_0000_0000,
        ;
    }
    if value as i64 <= alpha {
        let a = alpha - step;
        let a2 = if a <= value as i64 - 1 {
            a
        } else {
            value as i64 - 1
        };
        Some((if a2 >= -(INF as i64) {
            a2
        } else {
            -(INF as i64)
        }, beta))
    } else if value as i64 >= beta {
        let b = beta + step;
        let b2 = if b >= value as i64 + 1 {
            b
        } else {
            value as i64 + 1
        };
        Some((alpha, if b2 <= INF as i64 {
            b2
        } else {
            INF as i64
        }))
    } else {
        None
    }
}

} // verus!
