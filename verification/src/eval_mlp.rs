//! The evaluation network on integers: two halves of three dense layers,
//! one per player, read 52 features each; a head of three dense layers
//! reads their 12 outputs. Weights are 8-bit, biases 32-bit fixed point;
//! hidden layers apply a ReLU and scale down by a right shift.

use vstd::prelude::*;

verus! {

/// Sum over the first `k` inputs of input times its weight to output `j`.
pub open spec fn dot<const N: usize>(x: Seq<i32>, w: Seq<[i8; N]>, j: int, k: int) -> int
    decreases k,
{
    if k <= 0 {
        0
    } else {
        dot(x, w, j, k - 1) + w[k - 1]@[j] * x[k - 1]
    }
}

/// The activation of a hidden or output unit with input sum `s`: the ReLU
/// if asked, then a right shift by `shift`.
pub open spec fn activate(s: i32, relu: bool, shift: u32) -> i32 {
    let r: i32 = if relu && s < 0 {
        0
    } else {
        s
    };
    r >> shift
}

/// Output `j` of a dense layer: the activation of its bias plus weighted
/// inputs.
pub open spec fn neuron<const N: usize>(
    x: Seq<i32>,
    w: Seq<[i8; N]>,
    b: Seq<i32>,
    j: int,
    relu: bool,
    shift: u32,
) -> i32 {
    activate((b[j] + dot(x, w, j, x.len() as int)) as i32, relu, shift)
}

/// The outputs of a dense layer.
pub closed spec fn layer_spec<const N: usize>(
    x: Seq<i32>,
    w: Seq<[i8; N]>,
    b: Seq<i32>,
    relu: bool,
    shift: u32,
) -> Seq<i32> {
    Seq::new(N as nat, |j: int| neuron(x, w, b, j, relu, shift))
}

/// A 32-bit integer.
pub open spec fn fits_i32(v: int) -> bool {
    i32::MIN <= v <= i32::MAX
}

/// Computing the layer stays within 32 bits: every product and every
/// running sum.
pub closed spec fn layer_fits<const N: usize>(x: Seq<i32>, w: Seq<[i8; N]>, b: Seq<i32>) -> bool {
    &&& forall|i: int, j: int|
        0 <= i < x.len() && 0 <= j < N ==> fits_i32(#[trigger] w[i]@[j] * x[i])
    &&& forall|j: int, k: int|
        0 <= j < N && 0 <= k <= x.len() ==> fits_i32(b[j] + #[trigger] dot(x, w, j, k))
}

/// One more input in the weighted sum.
pub proof fn lemma_dot_step<const N: usize>(x: Seq<i32>, w: Seq<[i8; N]>, j: int, k: int)
    requires
        0 <= k,
    ensures
        dot(x, w, j, k + 1) == dot(x, w, j, k) + w[k]@[j] * x[k],
{
}

/// Adds input `i` times its weights to the running sums `y`.
fn accumulate_input<const N: usize>(x: &[i32], w: &[[i8; N]], b: &[i32; N], y: &mut [i32; N], i: usize)
    requires
        w@.len() == x@.len(),
        i < x@.len(),
        layer_fits(x@, w@, b@),
        forall|k: int| 0 <= k < N ==> old(y)@[k] == b@[k] + dot(x@, w@, k, i as int),
    ensures
        forall|k: int| 0 <= k < N ==> final(y)@[k] == b@[k] + dot(x@, w@, k, i + 1),
{
    let xi = x[i];
    if xi == 0 {
        assert forall|k: int| 0 <= k < N implies dot(x@, w@, k, i + 1) == dot(x@, w@, k, i as int) by {
            lemma_dot_step(x@, w@, k, i as int);
            assert(w@[i as int]@[k] * x@[i as int] == 0) by (nonlinear_arith)
                requires
                    x@[i as int] == 0,
            ;
        }
        return;
    }
    let row = &w[i];
    let mut j: usize = 0;
    while j < N
        invariant
            0 <= i < x@.len(),
            0 <= j <= N,
            w@.len() == x@.len(),
            xi == x@[i as int],
            *row == w@[i as int],
            layer_fits(x@, w@, b@),
            forall|k: int| 0 <= k < j ==> y@[k] == b@[k] + dot(x@, w@, k, i + 1),
            forall|k: int| j <= k < N ==> y@[k] == b@[k] + dot(x@, w@, k, i as int),
        decreases N - j,
    {
        proof {
            lemma_dot_step(x@, w@, j as int, i as int);
        }
        assert(fits_i32(w@[i as int]@[j as int] * x@[i as int]));
        assert(fits_i32(b@[j as int] + dot(x@, w@, j as int, i + 1)));
        let v = y[j] + row[j] as i32 * xi;
        y[j] = v;
        j += 1;
    }
}

/// The weighted sums plus biases, before the activation.
fn weighted_sums<const N: usize>(x: &[i32], w: &[[i8; N]], b: &[i32; N], y: &mut [i32; N])
    requires
        w@.len() == x@.len(),
        layer_fits(x@, w@, b@),
    ensures
        forall|k: int| 0 <= k < N ==> final(y)@[k] == b@[k] + dot(x@, w@, k, x@.len() as int),
{
    let mut j: usize = 0;
    while j < N
        invariant
            0 <= j <= N,
            forall|k: int| 0 <= k < j ==> y@[k] == b@[k],
        decreases N - j,
    {
        y[j] = b[j];
        j += 1;
    }
    let mut i: usize = 0;
    while i < x.len()
        invariant
            0 <= i <= x@.len(),
            w@.len() == x@.len(),
            layer_fits(x@, w@, b@),
            forall|k: int| 0 <= k < N ==> y@[k] == b@[k] + dot(x@, w@, k, i as int),
        decreases x@.len() - i,
    {
        accumulate_input(x, w, b, y, i);
        i += 1;
    }
}

/// A dense layer from `x` to `y` (see `neuron`).
#[verifier::rlimit(30)]
pub fn layer<const N: usize>(x: &[i32], w: &[[i8; N]], b: &[i32; N], y: &mut [i32; N], relu: bool, shift: u32)
    requires
        w@.len() == x@.len(),
        shift < 32,
        layer_fits(x@, w@, b@),
    ensures
        final(y)@ == layer_spec(x@, w@, b@, relu, shift),
{
    weighted_sums(x, w, b, y);
    let ghost sums = y@;
    let mut j: usize = 0;
    while j < N
        invariant
            0 <= j <= N,
            shift < 32,
            sums.len() == N,
            forall|k: int| 0 <= k < N ==> sums[k] == b@[k] + dot(x@, w@, k, x@.len() as int),
            forall|k: int| 0 <= k < j ==> y@[k] == activate(sums[k], relu, shift),
            forall|k: int| j <= k < N ==> y@[k] == sums[k],
        decreases N - j,
    {
        let mut v = y[j];
        if relu && v < 0 {
            v = 0;
        }
        y[j] = v >> shift;
        j += 1;
    }
    assert forall|k: int| 0 <= k < N implies y@[k] == neuron(x@, w@, b@, k, relu, shift) by {
        assert(sums[k] == (b@[k] + dot(x@, w@, k, x@.len() as int)) as i32);
    }
    assert(y@ =~= layer_spec(x@, w@, b@, relu, shift));
}

/// Whether computing the layer stays within 32 bits (see `layer_fits`).
pub fn layer_fits_exec<const N: usize>(x: &[i32], w: &[[i8; N]], b: &[i32; N]) -> (r: bool)
    requires
        w@.len() == x@.len(),
    ensures
        r == layer_fits(x@, w@, b@),
{
    let n = x.len();
    let mut j: usize = 0;
    while j < N
        invariant
            0 <= j <= N,
            n == x@.len(),
            w@.len() == x@.len(),
            forall|i: int, q: int| 0 <= i < n && 0 <= q < j ==> fits_i32(#[trigger] w@[i]@[q] * x@[i]),
            forall|q: int, k: int| 0 <= q < j && 0 <= k <= n ==> fits_i32(b@[q] + #[trigger] dot(x@, w@, q, k)),
        decreases N - j,
    {
        let mut s: i64 = b[j] as i64;
        let mut i: usize = 0;
        while i < n
            invariant
                0 <= j < N,
                0 <= i <= n,
                n == x@.len(),
                w@.len() == x@.len(),
                s == b@[j as int] + dot(x@, w@, j as int, i as int),
                fits_i32(s as int),
                forall|i2: int, q: int| 0 <= i2 < n && 0 <= q < j ==> fits_i32(#[trigger] w@[i2]@[q] * x@[i2]),
                forall|q: int, k: int| 0 <= q < j && 0 <= k <= n ==> fits_i32(b@[q] + #[trigger] dot(x@, w@, q, k)),
                forall|i2: int| 0 <= i2 < i ==> fits_i32(#[trigger] w@[i2]@[j as int] * x@[i2]),
                forall|k: int| 0 <= k <= i ==> fits_i32(b@[j as int] + #[trigger] dot(x@, w@, j as int, k)),
            decreases n - i,
        {
            let wij = w[i][j] as i64;
            let xi = x[i] as i64;
            assert(-128 <= wij <= 127);
            assert(-0x8000_0000 <= xi <= 0x7fff_ffff);
            assert(-0x80_0000_0000 <= wij * xi <= 0x80_0000_0000) by (nonlinear_arith)
                requires
                    -128 <= wij <= 127,
                    -0x8000_0000 <= xi <= 0x7fff_ffff,
            ;
            let p = wij * xi;
            if p < i32::MIN as i64 || p > i32::MAX as i64 {
                assert(!fits_i32(w@[i as int]@[j as int] * x@[i as int]));
                return false;
            }
            proof {
                lemma_dot_step(x@, w@, j as int, i as int);
            }
            s = s + p;
            if s < i32::MIN as i64 || s > i32::MAX as i64 {
                assert(!fits_i32(b@[j as int] + dot(x@, w@, j as int, i + 1)));
                return false;
            }
            i += 1;
        }
        j += 1;
    }
    true
}

/// The feature vectors handed to the network while recording is on, kept
/// for a benchmark or a dataset to take later.
pub struct FeatureAccumulator {
    enabled: bool,
    features: Vec<Vec<i16>>,
}

impl FeatureAccumulator {
    /// Whether vectors are being recorded.
    pub closed spec fn spec_enabled(&self) -> bool {
        self.enabled
    }

    /// The vectors recorded so far, oldest first.
    pub closed spec fn recorded(&self) -> Seq<Seq<i16>> {
        self.features@.map_values(|v: Vec<i16>| v@)
    }

    /// Recording off, nothing recorded.
    pub fn new() -> (r: FeatureAccumulator)
        ensures
            !r.spec_enabled(),
            r.recorded() == Seq::<Seq<i16>>::empty(),
    {
        let r = FeatureAccumulator { enabled: false, features: Vec::new() };
        assert(r.recorded() =~= Seq::<Seq<i16>>::empty());
        r
    }

    /// Turns recording on or off; what was recorded stays.
    pub fn set_accumulation(&mut self, enabled: bool)
        ensures
            final(self).spec_enabled() == enabled,
            final(self).recorded() == old(self).recorded(),
    {
        self.enabled = enabled;
    }

    /// Forgets what was recorded; recording stays on or off.
    pub fn clear_accumulated_features(&mut self)
        ensures
            final(self).spec_enabled() == old(self).spec_enabled(),
            final(self).recorded() == Seq::<Seq<i16>>::empty(),
    {
        self.features = Vec::new();
        assert(self.recorded() =~= Seq::<Seq<i16>>::empty());
    }

    /// Turns recording off and hands over what was recorded, leaving
    /// nothing behind.
    pub fn take_accumulated_features(&mut self) -> (r: Vec<Vec<i16>>)
        ensures
            !final(self).spec_enabled(),
            final(self).recorded() == Seq::<Seq<i16>>::empty(),
            r@.map_values(|v: Vec<i16>| v@) == old(self).recorded(),
    {
        self.enabled = false;
        let mut out: Vec<Vec<i16>> = Vec::new();
        std::mem::swap(&mut out, &mut self.features);
        assert(self.recorded() =~= Seq::<Seq<i16>>::empty());
        out
    }

    /// Keeps a copy of `x` if recording is on.
    pub fn record(&mut self, x: &[i16])
        ensures
            final(self).spec_enabled() == old(self).spec_enabled(),
            final(self).recorded() == (if old(self).spec_enabled() {
                old(self).recorded().push(x@)
            } else {
                old(self).recorded()
            }),
    {
        if self.enabled {
            let mut v: Vec<i16> = Vec::new();
            let mut i: usize = 0;
            while i < x.len()
                invariant
                    0 <= i <= x@.len(),
                    v@ == x@.subrange(0, i as int),
                decreases x@.len() - i,
            {
                v.push(x[i]);
                i += 1;
                assert(v@ =~= x@.subrange(0, i as int));
            }
            assert(v@ =~= x@);
            let ghost before = self.recorded();
            self.features.push(v);
            assert(self.recorded() =~= before.push(x@));
        }
    }
}

} // verus!
