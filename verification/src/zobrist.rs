//! The position hash is a function of the position: the exclusive or of
//! one key per piece, by tile, color, type and height, and of the player
//! key when the second player is to move. Playing and taking back actions
//! keeps it so, which is what makes equal positions hash alike.

use vstd::prelude::*;
use crate::piece::Piece;
use crate::board::{
    BoardModel, zkey, add_spec, remove_spec, do_spec, undo_spec, model_wf, can_do, can_undo, top,
    PLAYER_HASH,
};
use crate::action::ActionKind;
use crate::tile::GRID_SIZE;

verus! {

/// The keys of the lowest `n` pieces of the stack `s` on tile `t`.
pub open spec fn stack_hash(table: Seq<u64>, t: int, s: Seq<Piece>, n: int) -> u64
    decreases n,
{
    if n <= 0 {
        0
    } else {
        stack_hash(table, t, s, n - 1) ^ zkey(table, t, s[n - 1], n)
    }
}

/// The keys of all pieces on the first `n` tiles.
pub open spec fn tiles_hash(table: Seq<u64>, stacks: Seq<Seq<Piece>>, n: int) -> u64
    decreases n,
{
    if n <= 0 {
        0
    } else {
        tiles_hash(table, stacks, n - 1) ^ stack_hash(
            table,
            n - 1,
            stacks[n - 1],
            stacks[n - 1].len() as int,
        )
    }
}

/// The player key, present when the second player is to move.
pub open spec fn parity_key(turn_num: int) -> u64 {
    if turn_num % 2 == 1 {
        PLAYER_HASH
    } else {
        0
    }
}

/// The hash that the position of `m` should have.
pub open spec fn position_hash(m: BoardModel) -> u64 {
    tiles_hash(m.table, m.stacks, GRID_SIZE as int) ^ parity_key(m.turn_num)
}

/// The hash of `m` is the hash of its position.
pub open spec fn hash_ok(m: BoardModel) -> bool {
    m.hash == position_hash(m)
}

/// Exclusive or is associative and commutative, and undoes itself.
proof fn lemma_xor(a: u64, b: u64, c: u64)
    ensures
        (a ^ b) ^ c == (a ^ c) ^ b,
        a ^ (b ^ c) == (a ^ b) ^ c,
        (a ^ b) ^ b == a,
        a ^ 0 == a,
        a ^ a == 0,
{
    assert((a ^ b) ^ c == (a ^ c) ^ b && a ^ (b ^ c) == (a ^ b) ^ c && (a ^ b) ^ b == a && a ^ 0
        == a && a ^ a == 0) by (bit_vector);
}

/// The hash of the lowest `n` pieces only depends on them.
proof fn lemma_stack_prefix(table: Seq<u64>, t: int, s: Seq<Piece>, s2: Seq<Piece>, n: int)
    requires
        0 <= n <= s.len(),
        n <= s2.len(),
        forall|k: int| 0 <= k < n ==> s[k] == s2[k],
    ensures
        stack_hash(table, t, s, n) == stack_hash(table, t, s2, n),
    decreases n,
{
    if n > 0 {
        lemma_stack_prefix(table, t, s, s2, n - 1);
    }
}

/// Putting a piece on a stack adds its key at the new height.
proof fn lemma_stack_push(table: Seq<u64>, t: int, s: Seq<Piece>, p: Piece)
    ensures
        stack_hash(table, t, s.push(p), s.len() + 1int) == stack_hash(table, t, s, s.len() as int)
            ^ zkey(table, t, p, s.len() + 1int),
{
    lemma_stack_prefix(table, t, s, s.push(p), s.len() as int);
}

/// Taking the top piece off a stack removes its key.
proof fn lemma_stack_pop(table: Seq<u64>, t: int, s: Seq<Piece>)
    requires
        s.len() > 0,
    ensures
        stack_hash(table, t, s.drop_last(), s.len() - 1) == stack_hash(table, t, s, s.len() as int)
            ^ zkey(table, t, s.last(), s.len() as int),
{
    lemma_stack_prefix(table, t, s.drop_last(), s, s.len() - 1);
    lemma_xor(
        stack_hash(table, t, s.drop_last(), s.len() - 1),
        zkey(table, t, s.last(), s.len() as int),
        0,
    );
}

/// Changing the stack of tile `t` changes the hash of the tiles by the
/// difference of the two stacks' hashes.
proof fn lemma_tiles_update(table: Seq<u64>, stacks: Seq<Seq<Piece>>, t: int, s: Seq<Piece>, n: int)
    requires
        0 <= t < stacks.len(),
        0 <= n <= stacks.len(),
    ensures
        tiles_hash(table, stacks.update(t, s), n) == (if t < n {
            tiles_hash(table, stacks, n) ^ (stack_hash(
                table,
                t,
                stacks[t],
                stacks[t].len() as int,
            ) ^ stack_hash(table, t, s, s.len() as int))
        } else {
            tiles_hash(table, stacks, n)
        }),
    decreases n,
{
    if n > 0 {
        lemma_tiles_update(table, stacks, t, s, n - 1);
        let st2 = stacks.update(t, s);
        let a = tiles_hash(table, stacks, n - 1);
        let old_h = stack_hash(table, t, stacks[t], stacks[t].len() as int);
        let new_h = stack_hash(table, t, s, s.len() as int);
        let b = stack_hash(table, n - 1, stacks[n - 1], stacks[n - 1].len() as int);
        if t == n - 1 {
            assert(st2[n - 1] == s);
            lemma_xor(old_h, old_h, new_h);
            lemma_xor(a, old_h, old_h ^ new_h);
            lemma_xor(old_h, new_h, 0);
            assert(old_h ^ (old_h ^ new_h) == new_h) by {
                lemma_xor(old_h, old_h, new_h);
                lemma_xor(0, new_h, 0);
                assert(0u64 ^ new_h == new_h) by (bit_vector);
            }
        } else if t < n - 1 {
            assert(st2[n - 1] == stacks[n - 1]);
            lemma_xor(a, old_h ^ new_h, b);
        } else {
            assert(st2[n - 1] == stacks[n - 1]);
        }
    }
}

/// Putting a piece on a tile keeps the hash that of the position.
pub proof fn lemma_add_keeps_hash(m: BoardModel, t: int, p: Piece)
    requires
        m.stacks.len() == GRID_SIZE,
        hash_ok(m),
        0 <= t < GRID_SIZE,
    ensures
        hash_ok(add_spec(m, t, p)),
{
    let s = m.stacks[t];
    let z = zkey(m.table, t, p, s.len() + 1int);
    lemma_stack_push(m.table, t, s, p);
    lemma_tiles_update(m.table, m.stacks, t, s.push(p), GRID_SIZE as int);
    let a = tiles_hash(m.table, m.stacks, GRID_SIZE as int);
    let old_h = stack_hash(m.table, t, s, s.len() as int);
    assert(old_h ^ (old_h ^ z) == z) by {
        lemma_xor(old_h, old_h, z);
        assert(0u64 ^ z == z) by (bit_vector);
    }
    lemma_xor(a, z, parity_key(m.turn_num));
}

/// Taking the top piece off a tile keeps the hash that of the position.
pub proof fn lemma_remove_keeps_hash(m: BoardModel, t: int)
    requires
        m.stacks.len() == GRID_SIZE,
        hash_ok(m),
        0 <= t < GRID_SIZE,
        m.stacks[t].len() > 0,
    ensures
        hash_ok(remove_spec(m, t)),
{
    let s = m.stacks[t];
    let z = zkey(m.table, t, top(m, t), s.len() as int);
    lemma_stack_pop(m.table, t, s);
    lemma_tiles_update(m.table, m.stacks, t, s.drop_last(), GRID_SIZE as int);
    let a = tiles_hash(m.table, m.stacks, GRID_SIZE as int);
    let old_h = stack_hash(m.table, t, s, s.len() as int);
    assert(old_h ^ (old_h ^ z) == z) by {
        lemma_xor(old_h, old_h, z);
        assert(0u64 ^ z == z) by (bit_vector);
    }
    lemma_xor(a, z, parity_key(m.turn_num));
}

/// Passing the turn toggles the player key.
proof fn lemma_parity_step(h: u64, turn_num: int)
    requires
        turn_num >= 0,
    ensures
        (h ^ parity_key(turn_num)) ^ PLAYER_HASH == h ^ parity_key(turn_num + 1),
        (h ^ parity_key(turn_num + 1)) ^ PLAYER_HASH == h ^ parity_key(turn_num),
{
    lemma_xor(h, PLAYER_HASH, PLAYER_HASH);
    lemma_xor(h, 0, PLAYER_HASH);
    assert((h ^ PLAYER_HASH) ^ PLAYER_HASH == h) by (bit_vector);
}

/// Playing an action keeps the hash that of the position.
pub proof fn lemma_do_keeps_hash(m: BoardModel, a: crate::action::Action)
    requires
        model_wf(m),
        can_do(m, a),
        hash_ok(m),
    ensures
        hash_ok(do_spec(m, a)),
{
    let m1 = match a.spec_kind() {
        ActionKind::Place(t, p) => {
            lemma_add_keeps_hash(m, t as int, crate::board::next_piece(m, p));
            add_spec(m, t as int, crate::board::next_piece(m, p))
        },
        ActionKind::Move(f, t) => {
            lemma_remove_keeps_hash(m, f as int);
            let r = remove_spec(m, f as int);
            lemma_add_keeps_hash(r, t as int, top(m, f as int));
            add_spec(r, t as int, top(m, f as int))
        },
        ActionKind::Pass => m,
    };
    assert(hash_ok(m1));
    lemma_parity_step(tiles_hash(m1.table, m1.stacks, GRID_SIZE as int), m.turn_num);
}

/// Taking back an action keeps the hash that of the position.
pub proof fn lemma_undo_keeps_hash(m: BoardModel)
    requires
        model_wf(m),
        can_undo(m),
        m.history.last().wf(),
        hash_ok(m),
    ensures
        hash_ok(undo_spec(m)),
{
    let a = m.history.last();
    let m0 = BoardModel {
        turn_num: m.turn_num - 1,
        history: m.history.drop_last(),
        hash: m.hash ^ PLAYER_HASH,
        hash_history: if m.hash_history.len() > 0 {
            m.hash_history.drop_last()
        } else {
            m.hash_history
        },
        ..m
    };
    lemma_parity_step(tiles_hash(m.table, m.stacks, GRID_SIZE as int), m.turn_num - 1);
    assert(hash_ok(m0));
    match a.spec_kind() {
        ActionKind::Place(t, p) => {
            lemma_remove_keeps_hash(m0, t as int);
        },
        ActionKind::Move(f, t) => {
            lemma_remove_keeps_hash(m0, t as int);
            lemma_add_keeps_hash(remove_spec(m0, t as int), f as int, top(m0, t as int));
        },
        ActionKind::Pass => {},
    }
}

/// With no piece on the board the tiles add no key.
proof fn lemma_tiles_empty(table: Seq<u64>, stacks: Seq<Seq<Piece>>, n: int)
    requires
        0 <= n <= stacks.len(),
        forall|t: int| 0 <= t < n ==> #[trigger] stacks[t].len() == 0,
    ensures
        tiles_hash(table, stacks, n) == 0,
    decreases n,
{
    if n > 0 {
        lemma_tiles_empty(table, stacks, n - 1);
        lemma_xor(0, 0, 0);
    }
}

/// A new game, with an empty board, the first player to move and a zero
/// hash, has the hash of its position.
pub proof fn lemma_new_game_hash_ok(m: BoardModel)
    requires
        m.stacks.len() == GRID_SIZE,
        forall|t: int| 0 <= t < GRID_SIZE ==> #[trigger] m.stacks[t].len() == 0,
        m.turn_num == 0,
        m.hash == 0,
    ensures
        hash_ok(m),
{
    lemma_tiles_empty(m.table, m.stacks, GRID_SIZE as int);
    lemma_xor(0, 0, 0);
}

/// Two positions with the same pieces on the same tiles, the same player to
/// move and the same keys have the same hash, however they were reached.
pub proof fn lemma_equal_positions_equal_hash(m1: BoardModel, m2: BoardModel)
    requires
        hash_ok(m1),
        hash_ok(m2),
        m1.stacks == m2.stacks,
        m1.table == m2.table,
        m1.turn_num % 2 == m2.turn_num % 2,
    ensures
        m1.hash == m2.hash,
{
}

} // verus!
