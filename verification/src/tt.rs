//! The transposition table: one slot per hash value modulo a power of two,
//! remembering the best move, value, evaluation and depth of a searched
//! position.

use vstd::prelude::*;
use crate::action::Action;
use crate::eval::{Eval, Value};
use crate::engine::Depth;

verus! {

/// What the value of an entry says.
#[derive(Copy, Clone, Debug, PartialEq, Eq, Structural)]
pub enum TTFlag {
    Null,
    LowerBound,
    UpperBound,
    Exact,
    OnlyEval,
}

impl Default for TTFlag {
    fn default() -> (r: TTFlag)
        ensures
            r == TTFlag::Null,
    {
        TTFlag::Null
    }
}

/// One slot of the table.
#[derive(Copy, Clone, Debug)]
pub struct TEntry {
    pub hash: u32,
    pub pv: Action,
    pub value: Value,
    pub eval: Option<Eval>,
    pub depth: Depth,
    pub flag: TTFlag,
}

/// The number of slots that `b` bytes hold.
pub open spec fn slots_for(b: usize) -> int {
    if vstd::layout::size_of::<TEntry>() > 0 {
        (b as int) / (vstd::layout::size_of::<TEntry>() as int)
    } else {
        b as int
    }
}

/// `b` bytes never hold more than `b` slots.
pub proof fn lemma_slots_for_bound(b: usize)
    ensures
        0 <= slots_for(b) <= b,
{
    let s = vstd::layout::size_of::<TEntry>() as int;
    if s > 0 {
        assert(0 <= (b as int) / s <= b) by (nonlinear_arith)
            requires
                s > 0,
                b >= 0,
        ;
    }
}

/// The empty slot.
pub open spec fn empty_entry() -> TEntry {
    TEntry {
        hash: 0,
        pv: Action::spec_from_kind(crate::action::ActionKind::Pass),
        value: 0,
        eval: None,
        depth: 0,
        flag: TTFlag::Null,
    }
}

impl Default for TEntry {
    fn default() -> (r: TEntry)
        ensures
            r == empty_entry(),
    {
        TEntry { hash: 0, pv: Action::default(), value: 0, eval: None, depth: 0, flag: TTFlag::Null }
    }
}

/// The bits of a hash stored in a slot to tell positions apart: the high
/// half.
pub open spec fn check_bits_spec(hash: u64) -> u32 {
    (hash >> 32u64) as u32
}

/// The high half of a hash.
pub fn check_bits(hash: u64) -> (r: u32)
    ensures
        r == check_bits_spec(hash),
{
    (hash >> 32) as u32
}

/// How much a flag says about the value: nothing, an evaluation only, a
/// bound, the exact value.
pub open spec fn flag_score_spec(flag: TTFlag) -> u8 {
    match flag {
        TTFlag::Null => 0,
        TTFlag::OnlyEval => 1,
        TTFlag::LowerBound => 2,
        TTFlag::UpperBound => 2,
        TTFlag::Exact => 3,
    }
}

/// How much a flag says about the value.
pub fn flag_score(flag: TTFlag) -> (r: u8)
    ensures
        r == flag_score_spec(flag),
{
    match flag {
        TTFlag::Null => 0,
        TTFlag::OnlyEval => 1,
        TTFlag::LowerBound => 2,
        TTFlag::UpperBound => 2,
        TTFlag::Exact => 3,
    }
}

/// The flag of a search value: a lower bound at or above `beta`, an upper
/// bound at or below `alpha`, else exact.
pub open spec fn bound_flag(alpha: Value, beta: Value, value: Value) -> TTFlag {
    if value >= beta {
        TTFlag::LowerBound
    } else if value <= alpha {
        TTFlag::UpperBound
    } else {
        TTFlag::Exact
    }
}

/// The slot after storing `entry` where `curr` was: a slot of another
/// position is overwritten with `entry`. On the same position the new entry
/// replaces the old one after a deeper search, or an equally deep one that
/// says at least as much; then at equal depth two lower (upper) bounds keep
/// the higher (lower) value, and an evaluation already known is kept.
/// Otherwise the old entry stays.
pub open spec fn stored_entry(curr: TEntry, entry: TEntry) -> TEntry {
    if curr.hash != entry.hash {
        entry
    } else if entry.depth > curr.depth || (entry.depth == curr.depth && flag_score_spec(entry.flag)
        >= flag_score_spec(curr.flag)) {
        let v1 = if entry.depth == curr.depth && entry.flag == TTFlag::LowerBound && curr.flag
            == TTFlag::LowerBound && curr.value > entry.value {
            curr.value
        } else {
            entry.value
        };
        let v2 = if entry.depth == curr.depth && entry.flag == TTFlag::UpperBound && curr.flag
            == TTFlag::UpperBound && curr.value < v1 {
            curr.value
        } else {
            v1
        };
        let e = if entry.eval is None && curr.eval is Some {
            curr.eval
        } else {
            entry.eval
        };
        TEntry { value: v2, eval: e, ..entry }
    } else {
        curr
    }
}

/// The slot after storing the evaluation `eval` of the position with hash
/// `hash` where `slot` was: a free slot takes it as an evaluation-only
/// entry; the slot of the same position takes it if it has none.
pub open spec fn stored_eval(slot: TEntry, hash: u64, eval: Eval) -> TEntry {
    if slot.flag == TTFlag::Null {
        TEntry { hash: check_bits_spec(hash), flag: TTFlag::OnlyEval, eval: Some(eval), ..slot }
    } else if slot.hash == check_bits_spec(hash) && slot.eval is None {
        TEntry { eval: Some(eval), ..slot }
    } else {
        slot
    }
}

/// What a lookup of the position with hash `hash` finds in slot `e`:
/// the entry if it is in use and belongs to that position.
pub open spec fn probe(e: TEntry, hash: u64) -> Option<TEntry> {
    if e.flag == TTFlag::Null || e.hash != check_bits_spec(hash) {
        None
    } else {
        Some(e)
    }
}

/// Storing `entry` replaces what slot `curr` held.
pub open spec fn replaces(curr: TEntry, entry: TEntry) -> bool {
    curr.hash != entry.hash || entry.depth > curr.depth || (entry.depth == curr.depth
        && flag_score_spec(entry.flag) >= flag_score_spec(curr.flag))
}

/// A search result stored for a position is found by the next lookup of
/// that position, unless the slot kept a deeper or more telling entry of
/// the same position, which is then found as before.
pub proof fn lemma_put_then_probe(
    curr: TEntry,
    hash: u64,
    alpha: Value,
    beta: Value,
    pv: Action,
    value: Value,
    eval: Option<Eval>,
    depth: Depth,
)
    ensures
        ({
            let entry = TEntry {
                hash: check_bits_spec(hash),
                pv,
                value,
                eval,
                depth,
                flag: bound_flag(alpha, beta, value),
            };
            let stored = stored_entry(curr, entry);
            &&& replaces(curr, entry) ==> probe(stored, hash) == Some(stored)
            &&& replaces(curr, entry) ==> stored.pv == pv && stored.depth == depth && stored.flag
                == bound_flag(alpha, beta, value)
            &&& !replaces(curr, entry) ==> probe(stored, hash) == probe(curr, hash)
        }),
{
}

/// An evaluation stored in a free slot, or in the slot of the same position
/// that had none, is found by the next lookup of that position.
pub proof fn lemma_put_eval_then_probe(slot: TEntry, hash: u64, eval: Eval)
    requires
        slot.flag == TTFlag::Null || (slot.hash == check_bits_spec(hash) && slot.eval is None),
    ensures
        probe(stored_eval(slot, hash, eval), hash) matches Some(e) && e.eval == Some(eval),
{
}

/// An emptied slot is found by no lookup.
pub proof fn lemma_cleared_probe(hash: u64)
    ensures
        probe(empty_entry(), hash) is None,
{
}

/// A power of two that a `usize` holds has an exponent below its width.
proof fn lemma_pow2_below_bits(k: nat, q: usize)
    requires
        q == vstd::arithmetic::power2::pow2(k),
    ensures
        k < usize::BITS,
{
    if k >= usize::BITS {
        if k > usize::BITS {
            vstd::arithmetic::power2::lemma_pow2_strictly_increases(usize::BITS as nat, k);
        }
        vstd::arithmetic::power2::lemma2_to64();
        assert(usize::BITS == 32 || usize::BITS == 64);
    }
}

/// `x` is a power of two.
pub open spec fn is_pow2(x: usize) -> bool {
    x > 0 && x & ((x - 1) as usize) == 0
}

/// The smallest power of two not below `n`.
pub open spec fn is_next_pow2(n: usize, p: usize) -> bool {
    is_pow2(p) && p >= n && (p == 1 || p / 2 < n)
}

/// The smallest power of two not below `n`.
pub fn next_power_of_two(n: usize) -> (r: usize)
    requires
        n <= usize::MAX / 2,
    ensures
        is_next_pow2(n, r),
        exists|k: nat| k < usize::BITS && r == vstd::arithmetic::power2::pow2(k),
{
    let mut p: usize = 1;
    let ghost mut k: nat = 0;
    assert(1usize & ((1usize - 1) as usize) == 0) by (bit_vector);
    proof {
        vstd::arithmetic::power2::lemma2_to64();
    }
    while p < n
        invariant
            is_pow2(p),
            n <= usize::MAX / 2,
            p == 1 || p / 2 < n,
            p == vstd::arithmetic::power2::pow2(k),
            k < usize::BITS,
        decreases usize::MAX - p,
    {
        let q = p * 2;
        proof {
            vstd::arithmetic::power2::lemma_pow2_unfold(k + 1);
            lemma_pow2_below_bits(k + 1, q);
            k = k + 1;
        }
        assert(q & ((q - 1) as usize) == 0) by (bit_vector)
            requires
                p > 0,
                p & ((p - 1) as usize) == 0,
                q == p * 2,
        ;
        p = q;
    }
    p
}

/// The table: `buf.len()` slots, a power of two, and `mask` one less.
pub struct TTable {
    buf: Vec<TEntry>,
    mask: usize,
}

impl TTable {
    /// The slots.
    pub closed spec fn entries(&self) -> Seq<TEntry> {
        self.buf@
    }

    /// One less than the number of slots.
    pub closed spec fn spec_mask(&self) -> usize {
        self.mask
    }

    /// The number of slots is a power of two and `mask` is one less.
    pub closed spec fn wf(&self) -> bool {
        &&& is_pow2(self.buf@.len() as usize)
        &&& exists|k: nat| k < usize::BITS && self.buf@.len() == vstd::arithmetic::power2::pow2(k)
        &&& self.buf@.len() <= usize::MAX
        &&& self.mask == self.buf@.len() - 1
    }

    /// The slot of a hash: its low bits.
    pub open spec fn slot_of(&self, hash: u64) -> int {
        ((hash as usize) & self.spec_mask()) as int
    }

    /// The slot of a hash is the hash modulo the number of slots, so two
    /// hashes share a slot exactly when they agree modulo it.
    pub proof fn lemma_slot_of(&self, hash: u64)
        requires
            self.wf(),
        ensures
            self.slot_of(hash) == (hash as usize) % (self.entries().len() as usize),
    {
        let k = choose|k: nat| k < usize::BITS && self.buf@.len() == vstd::arithmetic::power2::pow2(k);
        vstd::bits::lemma_usize_low_bits_mask_is_mod(hash as usize, k);
    }

    /// A table of about `byte_size` bytes: the smallest power of two of
    /// slots not below `slots_for(byte_size)`, all empty.
    pub fn new(byte_size: usize) -> (r: TTable)
        requires
            slots_for(byte_size) <= usize::MAX / 2,
        ensures
            r.wf(),
            is_next_pow2(slots_for(byte_size) as usize, r.entries().len() as usize),
            forall|i: int| 0 <= i < r.entries().len() ==> r.entries()[i] == empty_entry(),
    {
        let sz = std::mem::size_of::<TEntry>();
        // a slot always takes some bytes; a size of zero would count one per byte
        let n = if sz > 0 {
            byte_size / sz
        } else {
            byte_size
        };
        let size = next_power_of_two(n);
        let mut buf: Vec<TEntry> = Vec::new();
        let mut i: usize = 0;
        while i < size
            invariant
                0 <= i <= size,
                buf@.len() == i,
                forall|j: int| 0 <= j < i ==> buf@[j] == empty_entry(),
            decreases size - i,
        {
            buf.push(TEntry::default());
            i += 1;
        }
        TTable { buf, mask: size - 1 }
    }

    /// The slot of `hash`.
    pub fn index(&self, hash: u64) -> (r: usize)
        requires
            self.wf(),
        ensures
            r == self.slot_of(hash),
            r < self.entries().len(),
    {
        let x = hash as usize;
        let m = self.mask;
        let len = self.buf.len();
        assert((x & m) <= m) by (bit_vector);
        x & m
    }

    /// The entry of the position with hash `hash`, if its slot holds one.
    pub fn get(&self, hash: u64) -> (r: Option<TEntry>)
        requires
            self.wf(),
        ensures
            r == probe(self.entries()[self.slot_of(hash)], hash),
    {
        let idx = self.index(hash);
        let entry = self.buf[idx];
        if entry.flag == TTFlag::Null || entry.hash != check_bits(hash) {
            return None;
        }
        Some(entry)
    }

    /// Stores the result of a search of the position with hash `hash`
    /// within `alpha..beta` (see `bound_flag` and `stored_entry`).
    pub fn put(
        &mut self,
        hash: u64,
        alpha: Value,
        beta: Value,
        pv: Action,
        value: Value,
        eval: Option<Eval>,
        depth: Depth,
    )
        requires
            old(self).wf(),
        ensures
            final(self).wf(),
            final(self).spec_mask() == old(self).spec_mask(),
            final(self).entries() == old(self).entries().update(
                old(self).slot_of(hash),
                stored_entry(
                    old(self).entries()[old(self).slot_of(hash)],
                    TEntry {
                        hash: check_bits_spec(hash),
                        pv,
                        value,
                        eval,
                        depth,
                        flag: bound_flag(alpha, beta, value),
                    },
                ),
            ),
    {
        let flag = if value >= beta {
            TTFlag::LowerBound
        } else if value <= alpha {
            TTFlag::UpperBound
        } else {
            TTFlag::Exact
        };
        let idx = self.index(hash);
        self.put_entry(idx, TEntry { hash: check_bits(hash), pv, value, eval, depth, flag });
    }

    /// Stores `entry` in slot `idx` (see `stored_entry`).
    pub fn put_entry(&mut self, idx: usize, entry: TEntry)
        requires
            old(self).wf(),
            idx < old(self).entries().len(),
        ensures
            final(self).wf(),
            final(self).spec_mask() == old(self).spec_mask(),
            final(self).entries() == old(self).entries().update(
                idx as int,
                stored_entry(old(self).entries()[idx as int], entry),
            ),
    {
        let mut e = entry;
        let curr = self.buf[idx];
        let collision = curr.hash != e.hash;
        if collision {
            // a slot of another position is overwritten
            self.buf.set(idx, e);
        } else if e.depth > curr.depth || (e.depth == curr.depth && flag_score(e.flag) >= flag_score(
            curr.flag,
        )) {
            if e.depth == curr.depth && e.flag == TTFlag::LowerBound && curr.flag
                == TTFlag::LowerBound {
                if curr.value > e.value {
                    e.value = curr.value;
                }
            }
            if e.depth == curr.depth && e.flag == TTFlag::UpperBound && curr.flag
                == TTFlag::UpperBound {
                if curr.value < e.value {
                    e.value = curr.value;
                }
            }
            if e.eval.is_none() && curr.eval.is_some() {
                e.eval = curr.eval;
            }
            self.buf.set(idx, e);
        }
        assert(self.buf@ =~= old(self).entries().update(
            idx as int,
            stored_entry(old(self).entries()[idx as int], entry),
        ));
    }

    /// Stores the evaluation `eval` of the position with hash `hash` (see
    /// `stored_eval`).
    pub fn put_eval(&mut self, hash: u64, eval: Eval)
        requires
            old(self).wf(),
        ensures
            final(self).wf(),
            final(self).spec_mask() == old(self).spec_mask(),
            final(self).entries() == old(self).entries().update(
                old(self).slot_of(hash),
                stored_eval(old(self).entries()[old(self).slot_of(hash)], hash, eval),
            ),
    {
        let idx = self.index(hash);
        let mut slot = self.buf[idx];
        if slot.flag == TTFlag::Null {
            slot.hash = check_bits(hash);
            slot.flag = TTFlag::OnlyEval;
            slot.eval = Some(eval);
            self.buf.set(idx, slot);
        } else if slot.hash == check_bits(hash) && slot.eval.is_none() {
            slot.eval = Some(eval);
            self.buf.set(idx, slot);
        }
        assert(self.buf@ =~= old(self).entries().update(
            idx as int,
            stored_eval(old(self).entries()[idx as int], hash, eval),
        ));
    }

    /// Empties the slot of `hash`.
    pub fn clear_one(&mut self, hash: u64)
        requires
            old(self).wf(),
        ensures
            final(self).wf(),
            final(self).spec_mask() == old(self).spec_mask(),
            final(self).entries() == old(self).entries().update(old(self).slot_of(hash), empty_entry()),
    {
        let idx = self.index(hash);
        self.buf.set(idx, TEntry::default());
    }

    /// Empties every slot.
    pub fn clear(&mut self)
        requires
            old(self).wf(),
        ensures
            final(self).wf(),
            final(self).spec_mask() == old(self).spec_mask(),
            final(self).entries().len() == old(self).entries().len(),
            forall|i: int| 0 <= i < final(self).entries().len() ==> final(self).entries()[i] == empty_entry(),
    {
        let n = self.buf.len();
        let mut i: usize = 0;
        while i < n
            invariant
                self.wf(),
                self.mask == old(self).spec_mask(),
                n == self.buf@.len(),
                n == old(self).entries().len(),
                0 <= i <= n,
                forall|j: int| 0 <= j < i ==> self.buf@[j] == empty_entry(),
            decreases n - i,
        {
            self.buf.set(i, TEntry::default());
            i += 1;
        }
    }
}

} // verus!
