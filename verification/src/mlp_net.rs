//! The weights of the evaluation network and the network itself: two
//! halves, one per player, each reading 52 features, and a head reading
//! their 12 outputs.

use vstd::prelude::*;
use crate::eval_mlp::{layer, layer_spec, layer_fits, layer_fits_exec};

verus! {

/// Number of features each half reads.
pub const FN: usize = 52;

/// Widens 16-bit features.
pub open spec fn widen(x: Seq<i16>) -> Seq<i32> {
    Seq::new(x.len(), |i: int| x[i] as i32)
}

/// The three layers of half A, and whether they stay within 32 bits.
#[verifier::opaque]
pub open spec fn half_a_layers(x: Seq<i16>) -> (Seq<i32>, Seq<i32>, Seq<i32>) {
    let x1 = layer_spec(widen(x), A_W01@, A_B1@, true, 0);
    let x2 = layer_spec(x1, A_W12@, A_B2@, true, 6);
    let x3 = layer_spec(x2, A_W23@, A_B3@, true, 6);
    (x1, x2, x3)
}

/// Half A stays within 32 bits on `x`.
#[verifier::opaque]
pub open spec fn half_a_fits(x: Seq<i16>) -> bool {
    let (x1, x2, x3) = half_a_layers(x);
    layer_fits(widen(x), A_W01@, A_B1@) && layer_fits(x1, A_W12@, A_B2@) && layer_fits(x2, A_W23@, A_B3@)
}

/// The three layers of half B.
#[verifier::opaque]
pub open spec fn half_b_layers(x: Seq<i16>) -> (Seq<i32>, Seq<i32>, Seq<i32>) {
    let x1 = layer_spec(widen(x), B_W01@, B_B1@, true, 0);
    let x2 = layer_spec(x1, B_W12@, B_B2@, true, 6);
    let x3 = layer_spec(x2, B_W23@, B_B3@, true, 6);
    (x1, x2, x3)
}

/// Half B stays within 32 bits on `x`.
#[verifier::opaque]
pub open spec fn half_b_fits(x: Seq<i16>) -> bool {
    let (x1, x2, x3) = half_b_layers(x);
    layer_fits(widen(x), B_W01@, B_B1@) && layer_fits(x1, B_W12@, B_B2@) && layer_fits(x2, B_W23@, B_B3@)
}

/// The three layers of the head.
#[verifier::opaque]
pub open spec fn head_layers(c: Seq<i32>) -> (Seq<i32>, Seq<i32>, Seq<i32>) {
    let x4 = layer_spec(c, H_W34@, H_B4@, true, 6);
    let x5 = layer_spec(x4, H_W45@, H_B5@, true, 6);
    let x6 = layer_spec(x5, H_W56@, H_B6@, false, 0);
    (x4, x5, x6)
}

/// The head stays within 32 bits on `c`.
#[verifier::opaque]
pub open spec fn head_fits(c: Seq<i32>) -> bool {
    let (x4, x5, x6) = head_layers(c);
    layer_fits(c, H_W34@, H_B4@) && layer_fits(x4, H_W45@, H_B5@) && layer_fits(x5, H_W56@, H_B6@)
}

/// The network on `x` (the player to move's features, then the
/// opponent's) stays within 32 bits.
pub open spec fn mlp_fits(x: Seq<i16>) -> bool {
    let a = x.subrange(0, FN as int);
    let b = x.subrange(FN as int, 2 * FN as int);
    half_a_fits(a) && half_b_fits(b) && head_fits(half_a_layers(a).2 + half_b_layers(b).2)
}

/// The output of the network before the final squashing.
pub open spec fn mlp_logit_spec(x: Seq<i16>) -> i32 {
    let a = x.subrange(0, FN as int);
    let b = x.subrange(FN as int, 2 * FN as int);
    head_layers(half_a_layers(a).2 + half_b_layers(b).2).2[0]
}

/// The features `x[start..start + FN]`, widened.
fn widen_range(x: &[i16], start: usize) -> (r: [i32; FN])
    requires
        start + FN <= x@.len(),
    ensures
        r@ == widen(x@.subrange(start as int, start + FN)),
{
    let n = x.len();
    let mut r = [0i32; FN];
    let mut i: usize = 0;
    while i < FN
        invariant
            0 <= i <= FN,
            start + FN <= x@.len(),
            n == x@.len(),
            forall|k: int| 0 <= k < i ==> r@[k] == x@[start + k] as i32,
        decreases FN - i,
    {
        r[i] = x[start + i] as i32;
        i += 1;
    }
    assert(r@ =~= widen(x@.subrange(start as int, start + FN)));
    r
}

/// Half A on the features `x[..FN]` of the player to move.
#[verifier::rlimit(60)]
pub fn shared_inference_a(x: &[i16], y: &mut [i32; 6])
    requires
        x@.len() >= FN,
        half_a_fits(x@.subrange(0, FN as int)),
    ensures
        final(y)@ == half_a_layers(x@.subrange(0, FN as int)).2,
{
    reveal(half_a_layers);
    reveal(half_a_fits);
    let x0 = widen_range(x, 0);
    let mut x1 = [0i32; 10];
    layer(&x0, &A_W01, &A_B1, &mut x1, true, 0);
    let mut x2 = [0i32; 8];
    layer(&x1, &A_W12, &A_B2, &mut x2, true, 6);
    layer(&x2, &A_W23, &A_B3, y, true, 6);
}

/// Half B on the features `x[FN..2 * FN]` of the opponent.
#[verifier::rlimit(60)]
pub fn shared_inference_b(x: &[i16], y: &mut [i32; 6])
    requires
        x@.len() >= 2 * FN,
        half_b_fits(x@.subrange(FN as int, 2 * FN as int)),
    ensures
        final(y)@ == half_b_layers(x@.subrange(FN as int, 2 * FN as int)).2,
{
    reveal(half_b_layers);
    reveal(half_b_fits);
    let x0 = widen_range(x, FN);
    let mut x1 = [0i32; 10];
    layer(&x0, &B_W01, &B_B1, &mut x1, true, 0);
    let mut x2 = [0i32; 8];
    layer(&x1, &B_W12, &B_B2, &mut x2, true, 6);
    layer(&x2, &B_W23, &B_B3, y, true, 6);
}

/// The head on the outputs of both halves: the output before the final
/// squashing.
#[verifier::rlimit(60)]
pub fn head_logit(c: &[i32; 12]) -> (r: i32)
    requires
        head_fits(c@),
    ensures
        r == head_layers(c@).2[0],
{
    reveal(head_layers);
    reveal(head_fits);
    let mut x4 = [0i32; 8];
    layer(c, &H_W34, &H_B4, &mut x4, true, 6);
    let mut x5 = [0i32; 6];
    layer(&x4, &H_W45, &H_B5, &mut x5, true, 6);
    let mut x6 = [0i32; 1];
    layer(&x5, &H_W56, &H_B6, &mut x6, false, 0);
    x6[0]
}

/// The network on the features `x` (the player to move's, then the
/// opponent's): the output before the final squashing.
pub fn mlp_logit(x: &[i16]) -> (r: i32)
    requires
        x@.len() == 2 * FN,
        mlp_fits(x@),
    ensures
        r == mlp_logit_spec(x@),
{
    let mut a = [0i32; 6];
    shared_inference_a(x, &mut a);
    let mut b = [0i32; 6];
    shared_inference_b(x, &mut b);
    let mut cat = [0i32; 12];
    let mut i: usize = 0;
    while i < 6
        invariant
            0 <= i <= 6,
            forall|k: int| 0 <= k < i ==> cat@[k] == a@[k] && cat@[k + 6] == b@[k],
        decreases 6 - i,
    {
        cat[i] = a[i];
        cat[i + 6] = b[i];
        i += 1;
    }
    assert(cat@ =~= a@ + b@);
    head_logit(&cat)
}

/// Half A on `x[..FN]`, or `None` when it leaves 32 bits.
fn half_a_checked(x: &[i16]) -> (r: Option<[i32; 6]>)
    requires
        x@.len() >= FN,
    ensures
        match r {
            Some(y) => half_a_fits(x@.subrange(0, FN as int)) && y@ == half_a_layers(x@.subrange(0, FN as int)).2,
            None => !half_a_fits(x@.subrange(0, FN as int)),
        },
{
    reveal(half_a_layers);
    reveal(half_a_fits);
    let x0 = widen_range(x, 0);
    if !layer_fits_exec(&x0, &A_W01, &A_B1) {
        return None;
    }
    let mut x1 = [0i32; 10];
    layer(&x0, &A_W01, &A_B1, &mut x1, true, 0);
    if !layer_fits_exec(&x1, &A_W12, &A_B2) {
        return None;
    }
    let mut x2 = [0i32; 8];
    layer(&x1, &A_W12, &A_B2, &mut x2, true, 6);
    if !layer_fits_exec(&x2, &A_W23, &A_B3) {
        return None;
    }
    let mut y = [0i32; 6];
    layer(&x2, &A_W23, &A_B3, &mut y, true, 6);
    Some(y)
}

/// Half B on `x[FN..2 * FN]`, or `None` when it leaves 32 bits.
fn half_b_checked(x: &[i16]) -> (r: Option<[i32; 6]>)
    requires
        x@.len() >= 2 * FN,
    ensures
        match r {
            Some(y) => half_b_fits(x@.subrange(FN as int, 2 * FN as int)) && y@ == half_b_layers(
                x@.subrange(FN as int, 2 * FN as int),
            ).2,
            None => !half_b_fits(x@.subrange(FN as int, 2 * FN as int)),
        },
{
    reveal(half_b_layers);
    reveal(half_b_fits);
    let x0 = widen_range(x, FN);
    if !layer_fits_exec(&x0, &B_W01, &B_B1) {
        return None;
    }
    let mut x1 = [0i32; 10];
    layer(&x0, &B_W01, &B_B1, &mut x1, true, 0);
    if !layer_fits_exec(&x1, &B_W12, &B_B2) {
        return None;
    }
    let mut x2 = [0i32; 8];
    layer(&x1, &B_W12, &B_B2, &mut x2, true, 6);
    if !layer_fits_exec(&x2, &B_W23, &B_B3) {
        return None;
    }
    let mut y = [0i32; 6];
    layer(&x2, &B_W23, &B_B3, &mut y, true, 6);
    Some(y)
}

/// The head on `c`, or `None` when it leaves 32 bits.
fn head_checked(c: &[i32; 12]) -> (r: Option<i32>)
    ensures
        match r {
            Some(v) => head_fits(c@) && v == head_layers(c@).2[0],
            None => !head_fits(c@),
        },
{
    reveal(head_layers);
    reveal(head_fits);
    if !layer_fits_exec(c, &H_W34, &H_B4) {
        return None;
    }
    let mut x4 = [0i32; 8];
    layer(c, &H_W34, &H_B4, &mut x4, true, 6);
    if !layer_fits_exec(&x4, &H_W45, &H_B5) {
        return None;
    }
    let mut x5 = [0i32; 6];
    layer(&x4, &H_W45, &H_B5, &mut x5, true, 6);
    if !layer_fits_exec(&x5, &H_W56, &H_B6) {
        return None;
    }
    let mut x6 = [0i32; 1];
    layer(&x5, &H_W56, &H_B6, &mut x6, false, 0);
    Some(x6[0])
}

/// The network on the features `x` when it stays within 32 bits (see
/// `mlp_fits`), `None` otherwise.
pub fn mlp_logit_checked(x: &[i16]) -> (r: Option<i32>)
    requires
        x@.len() == 2 * FN,
    ensures
        r == (if mlp_fits(x@) {
            Some(mlp_logit_spec(x@))
        } else {
            None
        }),
{
    let a = match half_a_checked(x) {
        Some(a) => a,
        None => {
            return None;
        },
    };
    let b = match half_b_checked(x) {
        Some(b) => b,
        None => {
            return None;
        },
    };
    let mut cat = [0i32; 12];
    let mut i: usize = 0;
    while i < 6
        invariant
            0 <= i <= 6,
            forall|k: int| 0 <= k < i ==> cat@[k] == a@[k] && cat@[k + 6] == b@[k],
        decreases 6 - i,
    {
        cat[i] = a[i];
        cat[i + 6] = b[i];
        i += 1;
    }
    assert(cat@ =~= a@ + b@);
    head_checked(&cat)
}

// Half A: the player to move.
pub const A_W01: [[i8; 10]; 52] = [
[-4i8, 1i8, -4i8, 0i8, 5i8, -27i8, 1i8, 20i8, 3i8, 57i8],
[-1i8, 7i8, -5i8, -5i8, -15i8, -43i8, 6i8, 24i8, 1i8, 64i8],
[5i8, -3i8, 2i8, -2i8, 23i8, -11i8, -2i8, -3i8, -21i8, 43i8],
[7i8, 8i8, 1i8, -14i8, -9i8, -19i8, -1i8, 12i8, -9i8, 56i8],
[38i8, 23i8, -16i8, 11i8, 8i8, 35i8, -42i8, -14i8, 14i8, -3i8],
[62i8, 7i8, 0i8, 17i8, 12i8, 44i8, 3i8, -12i8, 28i8, -12i8],
[-15i8, 23i8, -14i8, -8i8, -13i8, -41i8, 18i8, 26i8, 48i8, 6i8],
[10i8, -6i8, 0i8, 13i8, 38i8, 12i8, 22i8, -24i8, 7i8, -14i8],
[-1i8, -5i8, 0i8, 12i8, 14i8, 6i8, 1i8, -2i8, -22i8, -8i8],
[0i8, 0i8, 0i8, 0i8, 0i8, 0i8, 0i8, 0i8, 0i8, 0i8],
[-6i8, -1i8, 2i8, 18i8, -2i8, 1i8, -10i8, -3i8, 6i8, 0i8],
[1i8, -1i8, 27i8, 20i8, 2i8, 1i8, -9i8, 2i8, -6i8, -4i8],
[-1i8, 2i8, 32i8, 7i8, 0i8, -3i8, -9i8, 2i8, -2i8, -3i8],
[1i8, -8i8, -2i8, 7i8, 6i8, 1i8, -2i8, -3i8, 1i8, -3i8],
[1i8, 2i8, 4i8, 9i8, 5i8, -2i8, 4i8, 2i8, 4i8, 15i8],
[-9i8, -5i8, 3i8, -9i8, 10i8, -1i8, 13i8, 3i8, 0i8, 10i8],
[-4i8, 15i8, 18i8, -18i8, -7i8, -15i8, -1i8, 10i8, -2i8, 3i8],
[-2i8, -7i8, 33i8, -13i8, 0i8, -15i8, 0i8, 4i8, -5i8, -1i8],
[-3i8, 0i8, 31i8, 2i8, 0i8, -15i8, 1i8, 1i8, 3i8, -4i8],
[0i8, -15i8, -2i8, 7i8, 9i8, 3i8, -4i8, -7i8, 3i8, -4i8],
[2i8, 3i8, -9i8, -5i8, -18i8, -12i8, -3i8, 7i8, 4i8, 27i8],
[-5i8, 6i8, -7i8, -6i8, -6i8, -7i8, 7i8, 3i8, 6i8, 23i8],
[-4i8, -44i8, -3i8, 10i8, -2i8, 12i8, -29i8, 5i8, 10i8, -3i8],
[0i8, 6i8, 23i8, 19i8, 0i8, 6i8, -2i8, -3i8, 0i8, -5i8],
[-2i8, 0i8, 27i8, 16i8, 9i8, -4i8, -1i8, -4i8, 7i8, -11i8],
[0i8, 2i8, 0i8, 1i8, 1i8, 1i8, 1i8, -1i8, 0i8, 0i8],
[5i8, 6i8, 0i8, -2i8, -7i8, -1i8, 3i8, 4i8, -7i8, 19i8],
[-15i8, 3i8, 12i8, -1i8, -9i8, 1i8, -1i8, 6i8, -2i8, 23i8],
[-9i8, 2i8, 1i8, -2i8, -14i8, 21i8, -2i8, 9i8, -3i8, 8i8],
[-3i8, -3i8, 28i8, 10i8, -1i8, 9i8, -2i8, 9i8, -13i8, -4i8],
[-1i8, -2i8, 24i8, 22i8, 0i8, 13i8, -8i8, -4i8, 14i8, -3i8],
[0i8, -3i8, -3i8, 9i8, 3i8, 0i8, -2i8, -7i8, 0i8, -3i8],
[-16i8, -2i8, 0i8, -10i8, -11i8, -39i8, 4i8, 19i8, 12i8, 23i8],
[-7i8, -2i8, -1i8, -9i8, -5i8, -10i8, -13i8, -13i8, -19i8, 14i8],
[-10i8, 29i8, -11i8, 33i8, 14i8, 22i8, -19i8, 11i8, 12i8, -7i8],
[-8i8, -13i8, 16i8, 10i8, 8i8, 11i8, -15i8, -6i8, -3i8, -7i8],
[-2i8, -2i8, 22i8, 6i8, 2i8, -3i8, -6i8, -6i8, 2i8, -3i8],
[0i8, -9i8, 0i8, 0i8, 1i8, 0i8, 1i8, -7i8, 0i8, 0i8],
[2i8, 6i8, 0i8, -8i8, -1i8, -13i8, 1i8, 7i8, -1i8, 17i8],
[-6i8, 5i8, 1i8, 4i8, 15i8, 0i8, -14i8, -6i8, -12i8, 4i8],
[-3i8, 8i8, -8i8, 17i8, 3i8, 8i8, -19i8, -2i8, 9i8, -2i8],
[0i8, -6i8, 21i8, 14i8, 7i8, 10i8, -7i8, 1i8, -5i8, -5i8],
[1i8, 2i8, 29i8, 8i8, -9i8, -1i8, -9i8, 0i8, -11i8, 1i8],
[0i8, -3i8, 0i8, 3i8, 4i8, 0i8, 2i8, -2i8, 1i8, -1i8],
[1i8, -1i8, 5i8, 5i8, 16i8, 6i8, 4i8, 3i8, 5i8, 10i8],
[-8i8, -1i8, -2i8, 4i8, 17i8, 0i8, -1i8, 3i8, 0i8, 5i8],
[-17i8, 3i8, -5i8, 7i8, 15i8, 19i8, -32i8, 0i8, -3i8, -11i8],
[-1i8, -14i8, 10i8, 18i8, 33i8, 22i8, 20i8, 3i8, -10i8, -23i8],
[-3i8, 5i8, 24i8, 11i8, -11i8, 1i8, -11i8, 5i8, 6i8, 2i8],
[3i8, -7i8, -2i8, 3i8, 7i8, 1i8, 20i8, -1i8, 0i8, -4i8],
[5i8, -3i8, -6i8, -3i8, -8i8, -13i8, -4i8, 5i8, 11i8, 24i8],
[67i8, 0i8, -1i8, 1i8, -8i8, -14i8, 7i8, 13i8, -3i8, 21i8]
];

pub const A_B1: [i32; 10] = [-58i32, -2i32, -30i32, -29i32, 7i32, 64i32, 10i32, -10i32, 27i32, -74i32];

pub const A_W12: [[i8; 8]; 10] = [
[0i8, -4i8, -38i8, 14i8, 10i8, 19i8, 8i8, -44i8],
[1i8, 3i8, -2i8, 18i8, -9i8, -14i8, -4i8, -1i8],
[-2i8, 2i8, -17i8, -10i8, 26i8, -8i8, -5i8, 2i8],
[2i8, 2i8, 2i8, -23i8, 18i8, 17i8, -5i8, 5i8],
[21i8, 6i8, 0i8, 11i8, 6i8, 7i8, -5i8, -5i8],
[-12i8, -20i8, -9i8, 1i8, -14i8, 14i8, 37i8, 11i8],
[0i8, -1i8, 4i8, -1i8, -10i8, -17i8, -5i8, -1i8],
[5i8, 14i8, 2i8, 8i8, 8i8, -8i8, -6i8, -6i8],
[-6i8, 28i8, -8i8, 2i8, 0i8, 3i8, 0i8, 7i8],
[27i8, -6i8, 8i8, -13i8, -7i8, -7i8, -5i8, 24i8]
];

pub const A_B2: [i32; 8] = [-6033i32, 2212i32, 2134i32, 2677i32, -2990i32, 1793i32, -1046i32, -2871i32];

pub const A_W23: [[i8; 6]; 8] = [
[-6i8, -2i8, -25i8, -10i8, 87i8, 0i8],
[33i8, -12i8, 4i8, -12i8, -11i8, -3i8],
[-9i8, 8i8, 0i8, 19i8, -20i8, -13i8],
[-23i8, -2i8, 12i8, -11i8, -14i8, -25i8],
[-26i8, 29i8, -9i8, 24i8, -4i8, -14i8],
[2i8, -9i8, 1i8, 9i8, -5i8, 32i8],
[-3i8, 5i8, -22i8, 4i8, 1i8, 14i8],
[5i8, -13i8, -26i8, 9i8, 34i8, -17i8]
];

pub const A_B3: [i32; 6] = [732i32, -76i32, 1715i32, -763i32, -3062i32, 1991i32];

// Half B: the opponent.
pub const B_W01: [[i8; 10]; 52] = [
[7i8, 3i8, 2i8, 3i8, -26i8, 0i8, 6i8, 13i8, -10i8, 57i8],
[15i8, 15i8, 4i8, -14i8, -42i8, 2i8, 14i8, 19i8, -12i8, 63i8],
[-11i8, -17i8, 10i8, 16i8, 4i8, 3i8, 24i8, 4i8, -44i8, 45i8],
[-1i8, 6i8, 4i8, -17i8, -14i8, 3i8, 7i8, 10i8, -28i8, 59i8],
[-21i8, 36i8, -17i8, 9i8, 35i8, 15i8, -16i8, -35i8, 6i8, -3i8],
[9i8, 25i8, -5i8, 25i8, 42i8, -13i8, 6i8, -70i8, 18i8, 13i8],
[57i8, 16i8, -16i8, 4i8, -43i8, -10i8, -30i8, 12i8, -10i8, 3i8],
[2i8, 0i8, -3i8, 13i8, 8i8, -19i8, 9i8, -25i8, 10i8, -7i8],
[-6i8, -11i8, 8i8, 14i8, 14i8, -5i8, 11i8, 1i8, 1i8, -4i8],
[0i8, 0i8, 0i8, 0i8, 0i8, 0i8, 0i8, 0i8, 0i8, 0i8],
[-6i8, 12i8, 5i8, 8i8, 0i8, 2i8, -3i8, 9i8, 14i8, -1i8],
[-5i8, 5i8, 31i8, 14i8, 6i8, 6i8, 5i8, 5i8, 8i8, -6i8],
[-5i8, -3i8, 32i8, 5i8, -1i8, 0i8, -8i8, 0i8, 4i8, -4i8],
[-2i8, 1i8, -1i8, 11i8, 1i8, -1i8, 3i8, 1i8, 0i8, -4i8],
[5i8, 5i8, 4i8, 10i8, -3i8, 0i8, 1i8, 5i8, -4i8, 15i8],
[13i8, -14i8, 1i8, -2i8, -4i8, -10i8, 2i8, 4i8, 0i8, 14i8],
[8i8, -3i8, 13i8, -19i8, -17i8, 18i8, 6i8, -2i8, 6i8, 1i8],
[7i8, -5i8, 33i8, -9i8, -13i8, 6i8, 14i8, -6i8, 4i8, -2i8],
[8i8, -4i8, 30i8, 2i8, -13i8, -4i8, 3i8, -6i8, -1i8, -2i8],
[-3i8, 0i8, 0i8, 12i8, 4i8, -10i8, 2i8, 0i8, 0i8, -5i8],
[5i8, 14i8, -8i8, -12i8, -14i8, 4i8, 1i8, 12i8, -1i8, 26i8],
[9i8, 2i8, -9i8, -8i8, -12i8, -5i8, -5i8, 10i8, 0i8, 21i8],
[-17i8, 5i8, -3i8, 18i8, 12i8, 13i8, -19i8, 5i8, 3i8, -6i8],
[-2i8, 3i8, 26i8, 13i8, 8i8, 5i8, -2i8, 3i8, 3i8, -5i8],
[-3i8, -2i8, 25i8, 17i8, -5i8, 0i8, -1i8, -6i8, 6i8, -11i8],
[0i8, 0i8, 0i8, 1i8, 0i8, 0i8, 0i8, 0i8, 0i8, 0i8],
[3i8, 9i8, 1i8, -5i8, 2i8, 2i8, 9i8, 7i8, 1i8, 20i8],
[-4i8, -10i8, 7i8, 0i8, -5i8, -1i8, -18i8, 15i8, -18i8, 26i8],
[4i8, 2i8, -2i8, -7i8, 21i8, 10i8, -20i8, 18i8, 12i8, 8i8],
[4i8, -6i8, 33i8, 2i8, 17i8, 4i8, 1i8, 7i8, 10i8, -4i8],
[-7i8, 7i8, 20i8, 15i8, 12i8, -5i8, -28i8, 1i8, 5i8, 0i8],
[-6i8, 2i8, 0i8, 7i8, 1i8, -4i8, 4i8, 1i8, 1i8, -3i8],
[5i8, -10i8, 6i8, -18i8, -45i8, 2i8, -8i8, 3i8, -3i8, 25i8],
[-21i8, -15i8, 4i8, -7i8, -3i8, 3i8, 11i8, 11i8, -1i8, 16i8],
[-22i8, 7i8, -12i8, 39i8, 18i8, 41i8, -7i8, 10i8, 14i8, -12i8],
[-9i8, -6i8, 17i8, 13i8, 13i8, 4i8, -1i8, 3i8, 10i8, -7i8],
[-4i8, 1i8, 24i8, -1i8, -2i8, -6i8, -11i8, -6i8, 3i8, -2i8],
[0i8, 0i8, 0i8, -1i8, 0i8, -9i8, 0i8, 0i8, 0i8, 0i8],
[5i8, 1i8, 2i8, -5i8, -10i8, 3i8, 7i8, 2i8, -5i8, 17i8],
[-11i8, -10i8, 6i8, 16i8, 6i8, 19i8, 14i8, -3i8, -2i8, 5i8],
[-9i8, 12i8, -10i8, 15i8, 7i8, 14i8, -10i8, 3i8, 9i8, -4i8],
[-5i8, 0i8, 22i8, 15i8, 13i8, 2i8, 1i8, -2i8, 5i8, -6i8],
[-12i8, 0i8, 30i8, -3i8, 4i8, 4i8, -3i8, 4i8, 5i8, 2i8],
[0i8, 0i8, 0i8, 4i8, 0i8, -3i8, 2i8, 0i8, -1i8, -1i8],
[8i8, -2i8, 2i8, 11i8, 7i8, 1i8, 4i8, -2i8, 0i8, 10i8],
[-2i8, -12i8, -1i8, 14i8, 0i8, 1i8, 4i8, 0i8, -4i8, 5i8],
[-6i8, -8i8, -6i8, 21i8, 23i8, 41i8, -2i8, 0i8, 12i8, -14i8],
[10i8, -17i8, 12i8, 17i8, 30i8, -20i8, 14i8, -16i8, 2i8, -17i8],
[2i8, 10i8, 22i8, -1i8, 6i8, 4i8, -17i8, 8i8, -8i8, 1i8],
[6i8, -1i8, -2i8, -4i8, -1i8, -29i8, 5i8, -3i8, 3i8, 1i8],
[2i8, 11i8, -6i8, -1i8, -16i8, -2i8, -2i8, 6i8, -6i8, 21i8],
[9i8, 49i8, 8i8, -13i8, 8i8, 1i8, 26i8, -24i8, -48i8, 21i8]
];

pub const B_B1: [i32; 10] = [13i32, -12i32, -30i32, -27i32, 49i32, 24i32, 8i32, -7i32, 14i32, -86i32];

pub const B_W12: [[i8; 8]; 10] = [
[-10i8, -16i8, 0i8, -9i8, 15i8, -3i8, -4i8, -2i8],
[-14i8, -7i8, -12i8, -1i8, -5i8, 23i8, -6i8, 9i8],
[8i8, -4i8, -17i8, 18i8, 2i8, 0i8, 33i8, 9i8],
[14i8, 4i8, -15i8, -12i8, -6i8, -2i8, 4i8, -10i8],
[11i8, 31i8, 6i8, 4i8, 6i8, 12i8, -1i8, 25i8],
[-4i8, -8i8, 7i8, 3i8, 16i8, -8i8, -8i8, 11i8],
[18i8, -4i8, 3i8, 18i8, -2i8, 13i8, -4i8, -18i8],
[-4i8, -6i8, -2i8, 16i8, -5i8, -31i8, -6i8, 6i8],
[1i8, 12i8, -3i8, -2i8, -13i8, -23i8, 6i8, 1i8],
[32i8, -4i8, 5i8, -11i8, -12i8, 6i8, -10i8, 27i8]
];

pub const B_B2: [i32; 8] = [-4351i32, 4219i32, 3756i32, 3148i32, 1614i32, -2798i32, -1607i32, -1533i32];

pub const B_W23: [[i8; 6]; 8] = [
[-8i8, 3i8, 0i8, -4i8, 77i8, -5i8],
[36i8, -1i8, -10i8, 7i8, -45i8, -4i8],
[-16i8, 20i8, 1i8, -8i8, -12i8, -26i8],
[2i8, 3i8, 14i8, 3i8, -42i8, -18i8],
[-11i8, 19i8, -30i8, -5i8, -1i8, -2i8],
[42i8, 3i8, 12i8, 37i8, 6i8, -3i8],
[-11i8, -8i8, -7i8, 25i8, -1i8, -8i8],
[-12i8, -26i8, -20i8, -1i8, 20i8, -5i8]
];

pub const B_B3: [i32; 6] = [1774i32, -23i32, 2284i32, -1955i32, -4185i32, 3569i32];

// Head.
pub const H_W34: [[i8; 8]; 12] = [
[19i8, 0i8, -5i8, -22i8, 18i8, 0i8, -18i8, 24i8],
[19i8, 0i8, 5i8, -1i8, -10i8, 0i8, -9i8, -16i8],
[-16i8, 0i8, 44i8, -4i8, 6i8, 0i8, 19i8, 0i8],
[17i8, 0i8, 7i8, 10i8, 6i8, 0i8, -17i8, -1i8],
[-78i8, 0i8, -23i8, 14i8, -27i8, 0i8, -34i8, -49i8],
[-35i8, 0i8, 5i8, -21i8, 19i8, 0i8, 33i8, 20i8],
[15i8, 0i8, 20i8, 25i8, -43i8, 0i8, -14i8, -34i8],
[-23i8, 0i8, -6i8, 14i8, 16i8, 0i8, -6i8, 5i8],
[13i8, 0i8, -23i8, 7i8, -16i8, 0i8, 15i8, -9i8],
[-7i8, 0i8, -4i8, -24i8, 18i8, 0i8, 19i8, 33i8],
[-59i8, 0i8, -27i8, 2i8, -51i8, 0i8, -61i8, -71i8],
[34i8, 0i8, -35i8, -2i8, 14i8, 0i8, -17i8, 19i8]
];

pub const H_B4: [i32; 8] = [809i32, 0i32, -650i32, -853i32, -320i32, 0i32, 1527i32, 533i32];

pub const H_W45: [[i8; 6]; 8] = [
[0i8, 38i8, -23i8, 65i8, -24i8, 59i8],
[0i8, 0i8, 0i8, 0i8, 0i8, 0i8],
[0i8, 29i8, -7i8, -2i8, -33i8, 7i8],
[0i8, -11i8, -11i8, -19i8, 21i8, -21i8],
[0i8, -24i8, 60i8, 11i8, 33i8, -5i8],
[0i8, 0i8, 0i8, 0i8, 0i8, 0i8],
[0i8, -24i8, -20i8, -47i8, 38i8, -22i8],
[0i8, -23i8, 59i8, -19i8, 54i8, 4i8]
];

pub const H_B5: [i32; 6] = [0i32, 2202i32, 428i32, -733i32, 1163i32, -309i32];

pub const H_W56: [[i8; 1]; 6] = [
[0i8],
[-25i8],
[81i8],
[-80i8],
[35i8],
[-53i8]
];

pub const H_B6: [i32; 1] = [-342i32];

} // verus!
