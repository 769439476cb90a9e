//! The quantum register: lifecycle, gates and measurement.

use vstd::prelude::*;

use crate::gauss::cadd;
use crate::gauss::cmul;
use crate::gauss::sq;
use crate::store::Entry;
use crate::store::amp;
use crate::store::amp_of;
use crate::store::contains_idx;
use crate::store::uniq;
use crate::store::mass;
use crate::store::mass_cond;

verus! {

/// Largest amplitude component the store accepts; beyond it a gate reports
/// `AmplitudeOverflow` instead of silently truncating.
pub const AMP_LIMIT: i64 = 0x100_0000_0000;

/// Largest number of simultaneously nonzero basis states; beyond it a gate
/// reports `CapacityExceeded`.
pub const MAX_ENTRIES: usize = 1048576;

/// Largest register width in qubits, so that basis indices fit in a `u64`
/// and squared magnitudes fit in a `u128`.
pub const MAX_WIDTH: usize = 62;

/// Largest denominator of a `Phasor`.
pub const PHASOR_LIMIT: i64 = 32768;

/// How a register operation can fail.
#[derive(Clone, Copy, Debug, PartialEq, Eq, Structural)]
pub enum QuantumError {
    /// A qubit position was not below the register's physical width.
    IndexOutOfRange,
    /// A controlled gate named the same qubit as control and target.
    ControlIsTarget,
    /// An amplitude component left the exactly representable range.
    AmplitudeOverflow,
    /// The sparse store would exceed its entry capacity.
    CapacityExceeded,
    /// A phase parameter did not lie on the rational unit circle.
    MalformedPhasor,
}

/// An exact point on the unit circle: the complex number
/// `(re + im*i) / den` with `re*re + im*im == den*den`.
///
/// Gates that rotate by an arbitrary angle take the angle in this form, so
/// the engine stays in exact integer arithmetic; any angle can be
/// approximated arbitrarily well by such points.
#[derive(Clone, Copy, Debug, PartialEq, Eq, Structural)]
pub struct Phasor {
    pub re: i64,
    pub im: i64,
    pub den: i64,
}

/// A well-formed phasor: unit magnitude, bounded denominator.
pub open spec fn phasor_ok(p: Phasor) -> bool {
    &&& 1 <= p.den <= PHASOR_LIMIT
    &&& -p.den <= p.re <= p.den
    &&& -p.den <= p.im <= p.den
    &&& p.re * p.re + p.im * p.im == p.den * p.den
}

impl Phasor {
    /// The identity phase (angle zero).
    pub fn identity() -> (r: Phasor)
        ensures
            r == (Phasor { re: 1, im: 0, den: 1 }),
            phasor_ok(r),
    {
        Phasor { re: 1, im: 0, den: 1 }
    }

    /// A quarter turn: the imaginary unit `i` (angle pi/2).
    pub fn quarter() -> (r: Phasor)
        ensures
            r == (Phasor { re: 0, im: 1, den: 1 }),
            phasor_ok(r),
    {
        Phasor { re: 0, im: 1, den: 1 }
    }

    /// The complex conjugate: the same angle with opposite sign.
    pub fn conj(&self) -> (r: Phasor)
        ensures
            phasor_ok(*self) ==> {
                &&& r.re == self.re
                &&& r.im as int == -(self.im as int)
                &&& r.den == self.den
                &&& phasor_ok(r)
            },
    {
        let r = Phasor {
            re: self.re,
            im: if self.im == i64::MIN {
                i64::MIN
            } else {
                -self.im
            },
            den: self.den,
        };
        proof {
            let v = self.im as int;
            assert((-v) * (-v) == v * v) by (nonlinear_arith);
        }
        r
    }
}

/// A one-qubit gate matrix with Gaussian-integer coefficients,
/// `[[a, b], [c, d]]`, applied up to a positive real scale.
pub struct Mat {
    pub a: (int, int),
    pub b: (int, int),
    pub c: (int, int),
    pub d: (int, int),
}

/// A quantum register: a sparse store of basis states with exact
/// Gaussian-integer amplitudes, a physical width in qubits, a count of
/// scratch qubits hidden from the logical width, and the state of the
/// deterministic sampling generator.
pub struct QuReg {
    pub entries: Vec<Entry>,
    pub bits: usize,
    pub scratch: usize,
    pub rng: u64,
}

/// The mask selecting the low `w` bits of a basis index.
pub open spec fn mask_bits(w: usize) -> u64 {
    ((1u64 << (w as u64)) - 1) as u64
}

/// One entry lies within the register's bounds: its index addresses `bits`
/// qubits, its amplitude is nonzero and within the representable range.
pub open spec fn entry_ok(e: Entry, bits: usize) -> bool {
    &&& e.idx < (1u64 << (bits as u64))
    &&& -AMP_LIMIT <= e.re <= AMP_LIMIT
    &&& -AMP_LIMIT <= e.im <= AMP_LIMIT
    &&& !(e.re == 0 && e.im == 0)
}

impl QuReg {
    /// The register invariant: a nonempty, capacity-bounded store of unique,
    /// in-range basis states with nonzero amplitudes, and a scratch count
    /// within the physical width.
    pub open spec fn inv(self) -> bool {
        &&& self.bits <= MAX_WIDTH
        &&& self.scratch <= self.bits
        &&& 1 <= self.entries@.len() <= MAX_ENTRIES
        &&& uniq(self.entries@)
        &&& forall|k: int| 0 <= k < self.entries@.len() ==> entry_ok(#[trigger] self.entries@[k], self.bits)
    }

    /// The state the register denotes: the total map from basis index to
    /// amplitude.  Probabilities are squared magnitudes relative to the sum
    /// over the whole map, so the state is meaningful up to a global nonzero
    /// scale.
    pub open spec fn state(self) -> Map<u64, (int, int)> {
        Map::new(|j: u64| true, |j: u64| amp_of(self.entries@, j))
    }

    /// The register holds the classical basis state `b` with certainty:
    /// `b` is the only index with a nonzero amplitude, so every measurement
    /// returns `b`'s bits.
    pub open spec fn certainly(self, b: u64) -> bool {
        forall|j: u64| (#[trigger] amp_of(self.entries@, j) != (0int, 0int)) <==> j == b
    }

    /// Allocates a register of `width` qubits holding the classical basis
    /// state `init` (truncated to `width` bits) with amplitude one.
    pub fn new(width: usize, init: u64) -> (r: QuReg)
        requires
            1 <= width <= MAX_WIDTH,
        ensures
            r.inv(),
            r.bits == width,
            r.scratch == 0,
            r.certainly(init & mask_bits(width)),
            r.state() == Map::new(|j: u64| true, |j: u64| if j == init & mask_bits(width) {
                (1int, 0int)
            } else {
                (0int, 0int)
            }),
    {
        proof {
            assert(1u64 << (width as u64) >= 1) by (bit_vector)
                requires
                    width <= 62usize,
            ;
        }
        let mask = (1u64 << (width as u64)) - 1;
        let e = Entry { idx: init & mask, re: 1i64, im: 0i64 };
        let mut entries: Vec<Entry> = Vec::new();
        entries.push(e);
        let r = QuReg { entries, bits: width, scratch: 0, rng: 0x9E3779B97F4A7C15u64 };
        proof {
            assert(mask == mask_bits(width));
            assert(init & mask < 1u64 << (width as u64)) by (bit_vector)
                requires
                    mask == ((1u64 << (width as u64)) - 1) as u64,
                    1 <= width <= 62usize,
            ;
            let s = r.entries@;
            assert(s.len() == 1);
            assert(s.last() == e);
            assert(s.drop_last() =~= Seq::<Entry>::empty());
            assert(s.drop_last().len() == 0);
            assert forall|j: u64| (#[trigger] amp_of(s, j) != (0int, 0int)) <==> j == init & mask by {
                if j == init & mask {
                    assert(amp_of(s, j) == amp(e));
                } else {
                    assert(amp_of(s, j) == amp_of(s.drop_last(), j));
                    assert(amp_of(s, j) == (0int, 0int));
                }
            }
            assert(r.state() =~= Map::new(|j: u64| true, |j: u64| if j == init & mask_bits(width) {
                (1int, 0int)
            } else {
                (0int, 0int)
            }));
        }
        r
    }

    /// The logical width: the physical width minus the scratch qubits,
    /// which stay hidden from callers.
    pub fn width(&self) -> (r: usize)
        requires
            self.inv(),
        ensures
            r == self.bits - self.scratch,
    {
        self.bits - self.scratch
    }

    /// The number of scratch qubits currently attached.
    pub fn scratch(&self) -> (r: usize)
        ensures
            r == self.scratch,
    {
        self.scratch
    }

    /// The register's summary, as callers display it: the logical width
    /// and the scratch count.
    pub fn describe(&self) -> (r: (usize, usize))
        requires
            self.inv(),
        ensures
            r.0 == self.bits - self.scratch,
            r.1 == self.scratch,
    {
        (self.bits - self.scratch, self.scratch)
    }
}

/// An amplitude lies in the exactly representable range.
pub open spec fn in_amp_range(a: (int, int)) -> bool {
    &&& -(AMP_LIMIT as int) <= a.0 <= AMP_LIMIT as int
    &&& -(AMP_LIMIT as int) <= a.1 <= AMP_LIMIT as int
}

/// A matrix coefficient lies in the range a `Phasor` component can take.
pub open spec fn in_coef_range(a: (int, int)) -> bool {
    &&& -(PHASOR_LIMIT as int) <= a.0 <= PHASOR_LIMIT as int
    &&& -(PHASOR_LIMIT as int) <= a.1 <= PHASOR_LIMIT as int
}

/// The matrix with the given Gaussian-integer coefficients, row by row.
pub open spec fn mat_of(ar: i64, ai: i64, br: i64, bi: i64, cr: i64, ci: i64, dr: i64, di: i64) -> Mat {
    Mat {
        a: (ar as int, ai as int),
        b: (br as int, bi as int),
        c: (cr as int, ci as int),
        d: (dr as int, di as int),
    }
}

/// All four coefficients are bounded like `Phasor` components.
pub open spec fn mat_small(mat: Mat) -> bool {
    in_coef_range(mat.a) && in_coef_range(mat.b) && in_coef_range(mat.c) && in_coef_range(mat.d)
}

/// The determinant of a one-qubit matrix.
pub open spec fn mat_det(mat: Mat) -> (int, int) {
    crate::gauss::csub(cmul(mat.a, mat.d), cmul(mat.b, mat.c))
}

/// The amplitude that applying the matrix `mat` to the target qubit `t`,
/// under the control bits `ctrl`, assigns to basis index `j`.  Indices
/// whose control bits are not all set pass through unchanged; the others
/// mix pairwise along the target bit.
pub open spec fn mix_val(
    m: Map<u64, (int, int)>,
    ctrl: u64,
    t: usize,
    mat: Mat,
    j: u64,
) -> (int, int) {
    let tm = 1u64 << (t as u64);
    if j & ctrl == ctrl {
        if j & tm == 0 {
            cadd(cmul(mat.a, m[j]), cmul(mat.b, m[(j | tm) as u64]))
        } else {
            cadd(cmul(mat.c, m[(j & !tm) as u64]), cmul(mat.d, m[j]))
        }
    } else {
        m[j]
    }
}

/// The state after applying the matrix `mat` to target `t` under `ctrl`.
pub open spec fn mix_map(m: Map<u64, (int, int)>, ctrl: u64, t: usize, mat: Mat) -> Map<
    u64,
    (int, int),
> {
    Map::new(|j: u64| true, |j: u64| mix_val(m, ctrl, t, mat, j))
}

/// Every amplitude of the mixed state stays representable.
pub open spec fn mix_fits(m: Map<u64, (int, int)>, ctrl: u64, t: usize, mat: Mat) -> bool {
    forall|j: u64| in_amp_range(#[trigger] mix_val(m, ctrl, t, mat, j))
}

/// The amplitude that a diagonal gate assigns to basis index `j`: the
/// factor `f1` where all control bits are set, the factor `f0` elsewhere.
pub open spec fn diag_val(
    m: Map<u64, (int, int)>,
    ctrl: u64,
    f0: (int, int),
    f1: (int, int),
    j: u64,
) -> (int, int) {
    if j & ctrl == ctrl {
        cmul(f1, m[j])
    } else {
        cmul(f0, m[j])
    }
}

/// The state after applying a diagonal gate.
pub open spec fn diag_map(m: Map<u64, (int, int)>, ctrl: u64, f0: (int, int), f1: (int, int)) -> Map<
    u64,
    (int, int),
> {
    Map::new(|j: u64| true, |j: u64| diag_val(m, ctrl, f0, f1, j))
}

/// Every amplitude of the rescaled state stays representable.
pub open spec fn diag_fits(m: Map<u64, (int, int)>, ctrl: u64, f0: (int, int), f1: (int, int)) -> bool {
    forall|j: u64| in_amp_range(#[trigger] diag_val(m, ctrl, f0, f1, j))
}

/// Every amplitude a well-formed store denotes is representable.
proof fn lemma_amp_of_in_range(s: Seq<Entry>, bits: usize)
    requires
        forall|k: int| 0 <= k < s.len() ==> entry_ok(#[trigger] s[k], bits),
    ensures
        forall|j: u64| in_amp_range(#[trigger] amp_of(s, j)),
    decreases s.len(),
{
    if s.len() > 0 {
        assert(forall|k: int| 0 <= k < s.drop_last().len() ==> s.drop_last()[k] == s[k]);
        lemma_amp_of_in_range(s.drop_last(), bits);
        assert(s.last() == s[s.len() - 1]);
        assert forall|j: u64| in_amp_range(#[trigger] amp_of(s, j)) by {
            if s.last().idx == j {
            } else {
                assert(amp_of(s, j) == amp_of(s.drop_last(), j));
            }
        }
    }
}

/// One step of the register's xorshift sampling generator.
pub open spec fn next_word(x: u64) -> u64 {
    let a = x ^ (x << 13u64);
    let b = a ^ (a >> 7u64);
    b ^ (b << 17u64)
}

/// The value below `n` that the generator state `x` draws: two generator
/// words joined and reduced modulo `n`.
pub open spec fn draw_from(x: u64, n: int) -> int {
    ((next_word(x) as int) * 0x1_0000_0000_0000_0000 + (next_word(next_word(x)) as int)) % n
}

/// The basis index that the sampling walk picks for the draw `u`: the
/// first entry whose cumulative squared magnitude exceeds `u`.
pub open spec fn sample_index(s: Seq<Entry>, u: int) -> u64
    decreases s.len(),
{
    if s.len() == 0 {
        0u64
    } else if u < sq(amp(s[0])) {
        s[0].idx
    } else {
        sample_index(s.subrange(1, s.len() as int), u - sq(amp(s[0])))
    }
}

/// The mask with a bit set at each of the first `n` named positions.
pub open spec fn positions_mask(ps: Seq<usize>, n: nat) -> u64
    decreases n,
{
    if n == 0 {
        0u64
    } else {
        positions_mask(ps, (n - 1) as nat) | (1u64 << (ps[n - 1] as u64))
    }
}

/// Whether `x` occurs in the first `n` elements of `v`.
pub open spec fn occurs(v: Seq<u64>, n: int, x: u64) -> bool {
    exists|r: int| 0 <= r < n && v[r] == x
}

/// Occurrence in a prefix persists in any longer prefix.
proof fn lemma_occurs_mono(v: Seq<u64>, n1: int, n2: int, x: u64)
    requires
        occurs(v, n1, x),
        n1 <= n2,
    ensures
        occurs(v, n2, x),
{
    let r = choose|r: int| 0 <= r < n1 && v[r] == x;
    assert(0 <= r < n2 && v[r] == x);
}

/// A basis index whose class representative is in no occupied class
/// denotes zero before and after the mix.
proof fn lemma_class_absent(
    s: Seq<Entry>,
    tm: u64,
    ctrl: u64,
    t: usize,
    mat: Mat,
    m0: Map<u64, (int, int)>,
    reps: Seq<u64>,
    n: int,
    j: u64,
)
    requires
        m0 == Map::new(|j2: u64| true, |j2: u64| amp_of(s, j2)),
        tm == 1u64 << (t as u64),
        forall|k1: int| 0 <= k1 < s.len() ==> occurs(reps, n, #[trigger] s[k1].idx & !tm),
        !occurs(reps, n, j & !tm),
    ensures
        mix_val(m0, ctrl, t, mat, j) == (0int, 0int),
{
    assert forall|j2: u64| j2 & !tm == j & !tm implies #[trigger] amp_of(s, j2) == (0int, 0int) by {
        crate::store::lemma_contains_iff(s, j2);
        if contains_idx(s, j2) {
            let k = choose|k: int| 0 <= k < s.len() && s[k].idx == j2;
            assert(occurs(reps, n, s[k].idx & !tm));
            assert(false);
        } else {
            crate::store::lemma_amp_of_absent(s, j2);
        }
    }
    assert((j | tm) & !tm == j & !tm && (j & !tm) & !tm == j & !tm && j & !tm == j & !tm)
        by (bit_vector);
    assert(amp_of(s, j) == (0int, 0int));
    assert(amp_of(s, j | tm) == (0int, 0int));
    assert(amp_of(s, j & !tm) == (0int, 0int));
}

/// An invertible mix of a nonempty store leaves some basis index with a
/// nonzero amplitude.
proof fn lemma_mix_nonempty(
    s: Seq<Entry>,
    tm: u64,
    ctrl: u64,
    t: usize,
    mat: Mat,
    m0: Map<u64, (int, int)>,
)
    requires
        m0 == Map::new(|j2: u64| true, |j2: u64| amp_of(s, j2)),
        tm == 1u64 << (t as u64),
        ctrl & tm == 0,
        s.len() >= 1,
        uniq(s),
        amp(s[0]) != (0int, 0int),
        mat_det(mat) != (0int, 0int),
        t < 64,
    ensures
        exists|jw: u64| #[trigger] mix_val(m0, ctrl, t, mat, jw) != (0int, 0int),
{
    let j0 = s[0].idx;
    crate::store::lemma_amp_of_entry(s, 0);
    assert(m0[j0] == amp(s[0]));
    if j0 & ctrl != ctrl {
        assert(mix_val(m0, ctrl, t, mat, j0) != (0int, 0int));
    } else {
        let p = j0 & !tm;
        let q = (j0 & !tm) | tm;
        assert(p & tm == 0 && q & tm == tm && q & !tm == p && p & !tm == p && (j0 == p || j0 == q)
            && (p & ctrl == ctrl) == (j0 & ctrl == ctrl) && (q & ctrl == ctrl) == (j0 & ctrl
            == ctrl) && p | tm == q && tm != 0) by (bit_vector)
            requires
                p == j0 & !tm,
                q == (j0 & !tm) | tm,
                ctrl & tm == 0,
                tm == 1u64 << (t as u64),
                t < 64usize,
        ;
        let x = m0[p];
        let y = m0[q];
        assert(x != (0int, 0int) || y != (0int, 0int));
        if mix_val(m0, ctrl, t, mat, p) == (0int, 0int) && mix_val(m0, ctrl, t, mat, q) == (
        0int,
        0int,
        ) {
            assert(cadd(cmul(mat.a, x), cmul(mat.b, y)) == (0int, 0int));
            assert(cadd(cmul(mat.c, x), cmul(mat.d, y)) == (0int, 0int));
            crate::gauss::lemma_kernel(mat.a, mat.b, mat.c, mat.d, x, y);
            assert(false);
        }
        assert(mix_val(m0, ctrl, t, mat, p) != (0int, 0int) || mix_val(m0, ctrl, t, mat, q) != (
        0int,
        0int,
        ));
    }
}

/// Linear scan for `x` among the elements of `v`.
fn contains_u64(v: &Vec<u64>, x: u64) -> (r: bool)
    ensures
        r == occurs(v@, v@.len() as int, x),
{
    let n = v.len();
    let mut k: usize = 0;
    while k < n
        invariant
            0 <= k <= n,
            n == v@.len(),
            forall|r: int| 0 <= r < k ==> v@[r] != x,
        decreases n - k,
    {
        if v[k] == x {
            assert(occurs(v@, v@.len() as int, x));
            return true;
        }
        k += 1;
    }
    false
}

/// `cadd(cmul(a, x), cmul(b, y))` on machine integers: one row of a
/// one-qubit matrix applied to an amplitude pair.
fn row_apply(ar: i64, ai: i64, xr: i64, xi: i64, br: i64, bi: i64, yr: i64, yi: i64) -> (r: (
    i64,
    i64,
))
    requires
        in_coef_range((ar as int, ai as int)),
        in_coef_range((br as int, bi as int)),
        in_amp_range((xr as int, xi as int)),
        in_amp_range((yr as int, yi as int)),
    ensures
        (r.0 as int, r.1 as int) == cadd(
            cmul((ar as int, ai as int), (xr as int, xi as int)),
            cmul((br as int, bi as int), (yr as int, yi as int)),
        ),
{
    proof {
        let cb = PHASOR_LIMIT as int;
        let ab = AMP_LIMIT as int;
        crate::gauss::lemma_mul_bound(ar as int, xr as int, cb, ab);
        crate::gauss::lemma_mul_bound(ar as int, xi as int, cb, ab);
        crate::gauss::lemma_mul_bound(ai as int, xr as int, cb, ab);
        crate::gauss::lemma_mul_bound(ai as int, xi as int, cb, ab);
        crate::gauss::lemma_mul_bound(br as int, yr as int, cb, ab);
        crate::gauss::lemma_mul_bound(br as int, yi as int, cb, ab);
        crate::gauss::lemma_mul_bound(bi as int, yr as int, cb, ab);
        crate::gauss::lemma_mul_bound(bi as int, yi as int, cb, ab);
    }
    let r0 = ar * xr - ai * xi + br * yr - bi * yi;
    let r1 = ar * xi + ai * xr + br * yi + bi * yr;
    (r0, r1)
}

impl QuReg {
    /// Applies the matrix `mat` to the target qubit `t` of every basis
    /// pair whose control bits `ctrl` are all set.  The matrix must be
    /// invertible; the engine reports overflow rather than truncating.
    fn apply_mix(
        &mut self,
        ctrl: u64,
        t: usize,
        ar: i64,
        ai: i64,
        br: i64,
        bi: i64,
        cr: i64,
        ci: i64,
        dr: i64,
        di: i64,
    ) -> (r: Result<(), QuantumError>)
        requires
            old(self).inv(),
            t < old(self).bits,
            ctrl & (1u64 << (t as u64)) == 0,
            mat_small(mat_of(ar, ai, br, bi, cr, ci, dr, di)),
            mat_det(mat_of(ar, ai, br, bi, cr, ci, dr, di)) != (0int, 0int),
        ensures
            final(self).bits == old(self).bits,
            final(self).scratch == old(self).scratch,
            final(self).rng == old(self).rng,
            r is Ok ==> final(self).inv() && final(self).state() == mix_map(
                old(self).state(),
                ctrl,
                t,
                mat_of(ar, ai, br, bi, cr, ci, dr, di),
            ),
            r is Ok ==> final(self).entries@.len() <= 2 * old(self).entries@.len(),
            r is Err ==> *final(self) == *old(self),
            r == Err::<(), QuantumError>(QuantumError::AmplitudeOverflow) ==> !mix_fits(
                old(self).state(),
                ctrl,
                t,
                mat_of(ar, ai, br, bi, cr, ci, dr, di),
            ),
            (mix_fits(old(self).state(), ctrl, t, mat_of(ar, ai, br, bi, cr, ci, dr, di)) && 2 * old(
                self,
            ).entries@.len() <= MAX_ENTRIES) ==> r is Ok,
            r is Err ==> (r == Err::<(), QuantumError>(QuantumError::AmplitudeOverflow) || r
                == Err::<(), QuantumError>(QuantumError::CapacityExceeded)),
    {
        let ghost mat = mat_of(ar, ai, br, bi, cr, ci, dr, di);
        let ghost m0 = self.state();
        let ghost s = self.entries@;
        let tm = 1u64 << (t as u64);
        proof {
            assert(tm != 0) by (bit_vector)
                requires
                    tm == 1u64 << (t as u64),
                    t < 62usize,
            ;
            lemma_amp_of_in_range(s, self.bits);
        }
        // Collect the class representatives: each occupied basis index with
        // the target bit cleared.
        let n = self.entries.len();
        let mut reps: Vec<u64> = Vec::new();
        let mut k: usize = 0;
        while k < n
            invariant
                0 <= k <= n,
                n == s.len(),
                s == self.entries@,
                self.inv(),
                t < self.bits <= 62,
                tm == 1u64 << (t as u64),
                reps@.len() <= k,
                forall|r1: int| 0 <= r1 < reps@.len() ==> #[trigger] reps@[r1] & tm == 0,
                forall|r1: int| 0 <= r1 < reps@.len() ==> #[trigger] reps@[r1] < (1u64 << (
                self.bits as u64)),
                forall|r1: int, r2: int| 0 <= r1 < r2 < reps@.len() ==> reps@[r1] != reps@[r2],
                forall|k1: int| 0 <= k1 < k ==> occurs(
                    reps@,
                    reps@.len() as int,
                    #[trigger] s[k1].idx & !tm,
                ),
            decreases n - k,
        {
            let p = self.entries[k].idx & !tm;
            proof {
                let idx = s[k as int].idx;
                assert(p & tm == 0 && p <= idx) by (bit_vector)
                    requires
                        p == idx & !tm,
                ;
            }
            let ghost reps_old = reps@;
            let already = contains_u64(&reps, p);
            if !already {
                reps.push(p);
            }
            proof {
                assert forall|k1: int| 0 <= k1 < k + 1 implies occurs(
                    reps@,
                    reps@.len() as int,
                    #[trigger] s[k1].idx & !tm,
                ) by {
                    if k1 < k {
                        let r = choose|r: int|
                            0 <= r < reps_old.len() && reps_old[r] == s[k1].idx & !tm;
                        assert(reps@[r] == s[k1].idx & !tm);
                    } else {
                        if already {
                            let r = choose|r: int| 0 <= r < reps_old.len() && reps_old[r] == p;
                            assert(reps@[r] == p);
                        } else {
                            assert(reps@[reps@.len() - 1] == p);
                        }
                    }
                }
            }
            k += 1;
        }
        // Rebuild the store class by class.
        let nr = reps.len();
        let mut out: Vec<Entry> = Vec::new();
        let mut i: usize = 0;
        while i < nr
            invariant
                0 <= i <= nr,
                nr == reps@.len(),
                s == self.entries@,
                self.inv(),
                t < self.bits <= 62,
                tm == 1u64 << (t as u64),
                m0 == self.state(),
                mat == mat_of(ar, ai, br, bi, cr, ci, dr, di),
                mat_small(mat),
                ctrl & tm == 0,
                forall|j: u64| in_amp_range(#[trigger] amp_of(s, j)),
                forall|r1: int| 0 <= r1 < nr ==> #[trigger] reps@[r1] & tm == 0,
                forall|r1: int| 0 <= r1 < nr ==> #[trigger] reps@[r1] < (1u64 << (
                self.bits as u64)),
                forall|r1: int, r2: int| 0 <= r1 < r2 < nr ==> reps@[r1] != reps@[r2],
                forall|k1: int| 0 <= k1 < s.len() ==> occurs(
                    reps@,
                    nr as int,
                    #[trigger] s[k1].idx & !tm,
                ),
                out@.len() <= 2 * i,
                forall|k1: int| 0 <= k1 < out@.len() ==> occurs(
                    reps@,
                    i as int,
                    #[trigger] out@[k1].idx & !tm,
                ),
                forall|k1: int| 0 <= k1 < out@.len() ==> entry_ok(#[trigger] out@[k1], self.bits),
                uniq(out@),
                forall|j: u64| occurs(reps@, i as int, j & !tm) ==> #[trigger] amp_of(out@, j)
                    == mix_val(m0, ctrl, t, mat, j),
                forall|j: u64| !occurs(reps@, i as int, j & !tm) ==> #[trigger] amp_of(out@, j) == (
                0int,
                0int,
                ),
            decreases nr - i,
        {
            let ghost out_old = out@;
            let p = reps[i];
            let (xr, xi) = crate::store::find_amp(&self.entries, p);
            let (yr, yi) = crate::store::find_amp(&self.entries, p | tm);
            proof {
                assert((p & tm == 0) ==> ((p | tm) & !tm == p && p & !tm == p && (p | tm) != p && (
                (p | tm) & ctrl == ctrl) == (p & ctrl == ctrl) && ((p | tm) & tm != 0)))
                    by (bit_vector)
                    requires
                        ctrl & tm == 0,
                        tm == 1u64 << (t as u64),
                        t < 62usize,
                ;
                let w = self.bits;
                assert(p | tm < (1u64 << (w as u64))) by (bit_vector)
                    requires
                        p < (1u64 << (w as u64)),
                        tm == 1u64 << (t as u64),
                        t < w,
                        w <= 62usize,
                ;
            }
            let sel = p & ctrl == ctrl;
            let (n0, n1) = if sel {
                let n0 = row_apply(ar, ai, xr, xi, br, bi, yr, yi);
                let n1 = row_apply(cr, ci, xr, xi, dr, di, yr, yi);
                (n0, n1)
            } else {
                ((xr, xi), (yr, yi))
            };
            proof {
                assert((n0.0 as int, n0.1 as int) == mix_val(m0, ctrl, t, mat, p));
                assert((n1.0 as int, n1.1 as int) == mix_val(m0, ctrl, t, mat, p | tm));
            }
            if n0.0 > AMP_LIMIT || n0.0 < -AMP_LIMIT || n0.1 > AMP_LIMIT || n0.1 < -AMP_LIMIT {
                proof {
                    assert(!in_amp_range(mix_val(m0, ctrl, t, mat, p)));
                }
                return Err(QuantumError::AmplitudeOverflow);
            }
            if n1.0 > AMP_LIMIT || n1.0 < -AMP_LIMIT || n1.1 > AMP_LIMIT || n1.1 < -AMP_LIMIT {
                proof {
                    assert(!in_amp_range(mix_val(m0, ctrl, t, mat, p | tm)));
                }
                return Err(QuantumError::AmplitudeOverflow);
            }
            let e0 = Entry { idx: p, re: n0.0, im: n0.1 };
            let e1 = Entry { idx: p | tm, re: n1.0, im: n1.1 };
            proof {
                // The class handled now is new: its representative is not
                // among the first `i`, so neither output index is in `out`.
                if occurs(reps@, i as int, p) {
                    let rr = choose|rr: int| 0 <= rr < i && reps@[rr] == p;
                    assert(reps@[rr] == reps@[i as int]);
                    assert(false);
                }
                assert forall|k1: int| 0 <= k1 < out@.len() implies #[trigger] out@[k1].idx != p
                    && out@[k1].idx != p | tm by {
                    assert(occurs(reps@, i as int, out@[k1].idx & !tm));
                    if out@[k1].idx == p || out@[k1].idx == p | tm {
                        assert((p & !tm == p) && ((p | tm) & !tm == p)) by (bit_vector)
                            requires
                                p & tm == 0,
                        ;
                        assert(occurs(reps@, i as int, p));
                        assert(false);
                    }
                }
            }
            if !(n0.0 == 0 && n0.1 == 0) {
                out.push(e0);
            }
            let ghost out_mid = out@;
            proof {
                if n0.0 == 0 && n0.1 == 0 {
                    assert(out_mid == out_old);
                } else {
                    assert(out_mid == out_old.push(e0));
                }
            }
            if !(n1.0 == 0 && n1.1 == 0) {
                out.push(e1);
            }
            proof {
                let iv = i as int;
                assert(p != p | tm && tm != 0) by (bit_vector)
                    requires
                        p & tm == 0,
                        tm == 1u64 << (t as u64),
                        t < 62usize,
                ;
                // Amplitude bookkeeping across the (up to) two pushes.
                assert forall|j: u64| #[trigger] amp_of(out@, j) == (if j == p {
                    (n0.0 as int, n0.1 as int)
                } else if j == p | tm {
                    (n1.0 as int, n1.1 as int)
                } else {
                    amp_of(out_old, j)
                }) by {
                    if n0.0 == 0 && n0.1 == 0 {
                        assert(!occurs(reps@, iv, p & !tm)) by {
                            assert(p & !tm == p) by (bit_vector)
                                requires
                                    p & tm == 0,
                            ;
                        }
                        assert(amp_of(out_old, p) == (0int, 0int));
                    } else {
                        crate::store::lemma_amp_of_push(out_old, e0, j);
                    }
                    if n1.0 == 0 && n1.1 == 0 {
                        assert(!occurs(reps@, iv, (p | tm) & !tm)) by {
                            assert((p | tm) & !tm == p && p & !tm == p) by (bit_vector)
                                requires
                                    p & tm == 0,
                            ;
                        }
                        if !(n0.0 == 0 && n0.1 == 0) {
                            crate::store::lemma_amp_of_push(out_old, e0, p | tm);
                        }
                        assert(amp_of(out_mid, p | tm) == amp_of(out_old, p | tm));
                        assert(out@ == out_mid);
                    } else {
                        crate::store::lemma_amp_of_push(out_mid, e1, j);
                    }
                }
                // The two pointwise invariants at `i + 1`.
                assert forall|j: u64| occurs(reps@, iv + 1, j & !tm) implies #[trigger] amp_of(
                    out@,
                    j,
                ) == mix_val(m0, ctrl, t, mat, j) by {
                    assert(((j & !tm) == p) ==> (j == p || j == p | tm)) by (bit_vector)
                        requires
                            p & tm == 0,
                            tm == 1u64 << (t as u64),
                            t < 62usize,
                    ;
                    if j & !tm == p {
                    } else {
                        let rr = choose|rr: int| 0 <= rr < iv + 1 && reps@[rr] == j & !tm;
                        assert(rr < iv);
                        assert(occurs(reps@, iv, j & !tm));
                        assert(j != p && j != p | tm) by {
                            assert((p & !tm == p) && ((p | tm) & !tm == p)) by (bit_vector)
                                requires
                                    p & tm == 0,
                            ;
                        }
                    }
                }
                assert forall|j: u64| !occurs(reps@, iv + 1, j & !tm) implies #[trigger] amp_of(
                    out@,
                    j,
                ) == (0int, 0int) by {
                    assert(!occurs(reps@, iv, j & !tm)) by {
                        if occurs(reps@, iv, j & !tm) {
                            lemma_occurs_mono(reps@, iv, iv + 1, j & !tm);
                        }
                    }
                    assert(j != p && j != p | tm) by {
                        assert((p & !tm == p) && ((p | tm) & !tm == p)) by (bit_vector)
                            requires
                                p & tm == 0,
                        ;
                        if j == p || j == p | tm {
                            assert(reps@[iv] == j & !tm);
                        }
                    }
                }
                // Uniqueness and per-entry facts for the grown store.
                assert forall|k1: int| 0 <= k1 < out@.len() implies entry_ok(
                    #[trigger] out@[k1],
                    self.bits,
                ) && occurs(reps@, iv + 1, out@[k1].idx & !tm) by {
                    assert((p & !tm == p) && ((p | tm) & !tm == p)) by (bit_vector)
                        requires
                            p & tm == 0,
                    ;
                    if k1 < out_old.len() {
                        assert(out@[k1] == out_old[k1]);
                        lemma_occurs_mono(reps@, iv, iv + 1, out_old[k1].idx & !tm);
                    } else {
                        assert(out@[k1] == e0 || out@[k1] == e1);
                        assert(reps@[iv] == p);
                    }
                }
                assert forall|k1: int, k2: int| 0 <= k1 < k2 < out@.len() implies out@[k1].idx
                    != out@[k2].idx by {
                    if k2 < out_old.len() {
                        assert(out@[k1] == out_old[k1] && out@[k2] == out_old[k2]);
                    } else {
                        assert(out@[k2] == e0 || out@[k2] == e1);
                        if k1 < out_old.len() {
                            assert(out@[k1] == out_old[k1]);
                        } else {
                            assert(out@[k1] == e0 && out@[k2] == e1);
                        }
                    }
                }
            }
            i += 1;
        }
        if out.len() > MAX_ENTRIES {
            return Err(QuantumError::CapacityExceeded);
        }
        proof {
            // Indices outside every occupied class denote zero on both sides.
            assert forall|j: u64| #[trigger] amp_of(out@, j) == mix_val(m0, ctrl, t, mat, j) by {
                if occurs(reps@, nr as int, j & !tm) {
                } else {
                    lemma_class_absent(s, tm, ctrl, t, mat, m0, reps@, nr as int, j);
                }
            }
            // The new store is nonempty: the old store had a nonzero entry,
            // and the matrix has trivial kernel.
            assert(amp(s[0]) != (0int, 0int));
            lemma_mix_nonempty(s, tm, ctrl, t, mat, m0);
            let jw = choose|jw: u64| mix_val(m0, ctrl, t, mat, jw) != (0int, 0int);
            assert(amp_of(out@, jw) != (0int, 0int));
            if out@.len() == 0 {
                assert(amp_of(out@, jw) == (0int, 0int));
            }
            assert(out@.len() >= 1);
        }
        self.entries = out;
        proof {
            assert(self.state() =~= mix_map(m0, ctrl, t, mat));
        }
        Ok(())
    }

    /// Multiplies the amplitude of every basis index whose control bits
    /// `ctrl` are all set by `f1`, and of every other index by `f0`.  Both
    /// factors must be nonzero; gates pass factors of equal magnitude so
    /// the measurement distribution keeps its meaning.
    fn apply_diag(&mut self, ctrl: u64, f0r: i64, f0i: i64, f1r: i64, f1i: i64) -> (r: Result<
        (),
        QuantumError,
    >)
        requires
            old(self).inv(),
            in_coef_range((f0r as int, f0i as int)),
            in_coef_range((f1r as int, f1i as int)),
            (f0r as int, f0i as int) != (0int, 0int),
            (f1r as int, f1i as int) != (0int, 0int),
            sq((f0r as int, f0i as int)) == sq((f1r as int, f1i as int)),
        ensures
            final(self).bits == old(self).bits,
            final(self).scratch == old(self).scratch,
            final(self).rng == old(self).rng,
            final(self).inv(),
            final(self).entries@.len() == old(self).entries@.len(),
            r is Ok <==> diag_fits(
                old(self).state(),
                ctrl,
                (f0r as int, f0i as int),
                (f1r as int, f1i as int),
            ),
            r is Ok ==> final(self).state() == diag_map(
                old(self).state(),
                ctrl,
                (f0r as int, f0i as int),
                (f1r as int, f1i as int),
            ),
            r is Err ==> *final(self) == *old(self) && r == Err::<(), QuantumError>(
                QuantumError::AmplitudeOverflow,
            ),
            r is Ok ==> mass(final(self).entries@) == sq((f1r as int, f1i as int)) * mass(
                old(self).entries@,
            ),
    {
        let ghost m0 = self.state();
        let ghost s = self.entries@;
        let ghost f0 = (f0r as int, f0i as int);
        let ghost f1 = (f1r as int, f1i as int);
        let n = self.entries.len();
        let mut out: Vec<Entry> = Vec::new();
        let mut k: usize = 0;
        while k < n
            invariant
                0 <= k <= n,
                n == s.len(),
                s == self.entries@,
                self.inv(),
                m0 == self.state(),
                f0 == (f0r as int, f0i as int),
                f1 == (f1r as int, f1i as int),
                in_coef_range(f0),
                in_coef_range(f1),
                f0 != (0int, 0int),
                f1 != (0int, 0int),
                out@.len() == k,
                forall|k1: int| 0 <= k1 < k ==> (#[trigger] out@[k1]).idx == s[k1].idx,
                forall|k1: int| 0 <= k1 < k ==> amp(#[trigger] out@[k1]) == (if s[k1].idx & ctrl
                    == ctrl {
                    cmul(f1, amp(s[k1]))
                } else {
                    cmul(f0, amp(s[k1]))
                }),
                forall|k1: int| 0 <= k1 < k ==> entry_ok(#[trigger] out@[k1], self.bits),
            decreases n - k,
        {
            let e = self.entries[k];
            let sel = e.idx & ctrl == ctrl;
            let (fr, fi) = if sel {
                (f1r, f1i)
            } else {
                (f0r, f0i)
            };
            let nv = row_apply(fr, fi, e.re, e.im, 0i64, 0i64, 0i64, 0i64);
            proof {
                let f = if sel {
                    f1
                } else {
                    f0
                };
                assert((nv.0 as int, nv.1 as int) == cmul(f, amp(e)));
                crate::store::lemma_amp_of_entry(s, k as int);
                crate::gauss::lemma_cmul_nonzero(f, amp(e));
            }
            if nv.0 > AMP_LIMIT || nv.0 < -AMP_LIMIT || nv.1 > AMP_LIMIT || nv.1 < -AMP_LIMIT {
                proof {
                    assert(!in_amp_range(diag_val(m0, ctrl, f0, f1, e.idx)));
                }
                return Err(QuantumError::AmplitudeOverflow);
            }
            out.push(Entry { idx: e.idx, re: nv.0, im: nv.1 });
            k += 1;
        }
        proof {
            crate::store::lemma_amp_of_transform(
                s,
                out@,
                |j: u64| true,
                |j: u64| j,
                |a: (int, int), j: u64|
                    if j & ctrl == ctrl {
                        cmul(f1, a)
                    } else {
                        cmul(f0, a)
                    },
            );
            assert forall|j: u64| #[trigger] amp_of(out@, j) == diag_val(m0, ctrl, f0, f1, j) by {
                let g = |a: (int, int), j2: u64|
                    if j2 & ctrl == ctrl {
                        cmul(f1, a)
                    } else {
                        cmul(f0, a)
                    };
                let f = |j2: u64| j2;
                assert(amp_of(out@, f(j)) == g(amp_of(s, j), j));
            }
            assert forall|j: u64| in_amp_range(#[trigger] diag_val(m0, ctrl, f0, f1, j)) by {
                crate::store::lemma_contains_iff(s, j);
                if contains_idx(s, j) {
                    let k1 = choose|k1: int| 0 <= k1 < s.len() && s[k1].idx == j;
                    crate::store::lemma_amp_of_entry(s, k1);
                    assert(amp_of(out@, j) == diag_val(m0, ctrl, f0, f1, j));
                    assert(in_amp_range(amp(out@[k1])));
                } else {
                    crate::store::lemma_amp_of_absent(s, j);
                }
            }
        }
        proof {
            assert forall|k1: int| 0 <= k1 < s.len() implies sq(amp(#[trigger] out@[k1])) == sq(f1)
                * sq(amp(s[k1])) by {
                if s[k1].idx & ctrl == ctrl {
                    crate::gauss::lemma_sq_mul(f1, amp(s[k1]));
                } else {
                    crate::gauss::lemma_sq_mul(f0, amp(s[k1]));
                }
            }
            crate::store::lemma_mass_scaled(s, out@, sq(f1));
        }
        self.entries = out;
        proof {
            assert(self.state() =~= diag_map(m0, ctrl, f0, f1));
        }
        Ok(())
    }
}

/// The Hadamard matrix, up to its `1/sqrt(2)` scale.
pub open spec fn h_mat() -> Mat {
    mat_of(1i64, 0i64, 1i64, 0i64, 1i64, 0i64, -1i64, 0i64)
}

/// The Pauli X (NOT) matrix.
pub open spec fn x_mat() -> Mat {
    mat_of(0i64, 0i64, 1i64, 0i64, 1i64, 0i64, 0i64, 0i64)
}

/// The Pauli Y matrix.
pub open spec fn y_mat() -> Mat {
    mat_of(0i64, 0i64, 0i64, -1i64, 0i64, 1i64, 0i64, 0i64)
}

/// The x-rotation matrix for the half-angle phasor `ph`, up to its
/// `1/ph.den` scale: `[[cos, -i sin], [-i sin, cos]]`.
pub open spec fn rx_mat(ph: Phasor) -> Mat {
    Mat {
        a: (ph.re as int, 0int),
        b: (0int, -(ph.im as int)),
        c: (0int, -(ph.im as int)),
        d: (ph.re as int, 0int),
    }
}

/// The y-rotation matrix for the half-angle phasor `ph`, up to its
/// `1/ph.den` scale: `[[cos, -sin], [sin, cos]]`.
pub open spec fn ry_mat(ph: Phasor) -> Mat {
    Mat {
        a: (ph.re as int, 0int),
        b: (-(ph.im as int), 0int),
        c: (ph.im as int, 0int),
        d: (ph.re as int, 0int),
    }
}

/// The complex number a phasor stands for, times its denominator.
pub open spec fn phasor_val(ph: Phasor) -> (int, int) {
    (ph.re as int, ph.im as int)
}

/// The conjugate of what a phasor stands for, times its denominator.
pub open spec fn phasor_conj(ph: Phasor) -> (int, int) {
    (ph.re as int, -(ph.im as int))
}

/// The real scale a phasor carries: its denominator.
pub open spec fn phasor_den(ph: Phasor) -> (int, int) {
    (ph.den as int, 0int)
}

/// The distance between two qubit positions.
pub open spec fn qubit_dist(c: usize, t: usize) -> int {
    if c >= t {
        c - t
    } else {
        t - c
    }
}

/// The built-in phasor for the controlled-phase angle `pi / 2^k`: exact
/// for `k <= 1`, the closest entry of a small table of exact rational
/// circle points for `2 <= k <= 8`, and the identity for larger `k`,
/// whose angles fall below what the denominator budget resolves.
pub open spec fn turn_for(k: int) -> Phasor {
    if k <= 1 {
        Phasor { re: 0, im: 1, den: 1 }
    } else if k == 2 {
        Phasor { re: 697, im: 696, den: 985 }
    } else if k == 3 {
        Phasor { re: 12, im: 5, den: 13 }
    } else if k == 4 {
        Phasor { re: 4992, im: 994, den: 5090 }
    } else if k == 5 {
        Phasor { re: 3712, im: 366, den: 3730 }
    } else if k == 6 {
        Phasor { re: 14875, im: 732, den: 14893 }
    } else if k == 7 {
        Phasor { re: 26565, im: 652, den: 26573 }
    } else if k == 8 {
        Phasor { re: 26568, im: 326, den: 26570 }
    } else {
        Phasor { re: 1, im: 0, den: 1 }
    }
}

/// Checks that a phasor lies on the rational unit circle with a bounded
/// denominator.
fn check_phasor(ph: &Phasor) -> (r: bool)
    ensures
        r == phasor_ok(*ph),
{
    if !(1 <= ph.den && ph.den <= PHASOR_LIMIT && -ph.den <= ph.re && ph.re <= ph.den && -ph.den
        <= ph.im && ph.im <= ph.den) {
        return false;
    }
    proof {
        let lim = PHASOR_LIMIT as int;
        crate::gauss::lemma_mul_bound(ph.re as int, ph.re as int, lim, lim);
        crate::gauss::lemma_mul_bound(ph.im as int, ph.im as int, lim, lim);
        crate::gauss::lemma_mul_bound(ph.den as int, ph.den as int, lim, lim);
    }
    ph.re * ph.re + ph.im * ph.im == ph.den * ph.den
}

/// The rotation matrices of a well-formed phasor are bounded and have the
/// nonzero determinant `den * den`.
proof fn lemma_rot_det(ph: Phasor)
    requires
        phasor_ok(ph),
    ensures
        mat_small(rx_mat(ph)),
        mat_small(ry_mat(ph)),
        mat_det(rx_mat(ph)) != (0int, 0int),
        mat_det(ry_mat(ph)) != (0int, 0int),
{
    let c = ph.re as int;
    let sn = ph.im as int;
    let dn = ph.den as int;
    assert(c * c - 0 * 0 == c * c && c * 0 + 0 * c == 0) by (nonlinear_arith);
    assert(0 * 0 - (-sn) * (-sn) == -(sn * sn) && 0 * (-sn) + (-sn) * 0 == 0) by (nonlinear_arith);
    assert((-sn) * sn - 0 * 0 == -(sn * sn) && (-sn) * 0 + 0 * sn == 0) by (nonlinear_arith);
    assert(dn * dn >= 1) by (nonlinear_arith)
        requires
            dn >= 1,
    ;
    assert(mat_det(rx_mat(ph)).0 == c * c + sn * sn);
    assert(mat_det(ry_mat(ph)).0 == c * c + sn * sn);
}

impl QuReg {
    /// Applies the Hadamard gate to qubit `target`.
    pub fn hadamard(&mut self, target: usize) -> (r: Result<(), QuantumError>)
        requires
            old(self).inv(),
        ensures
            final(self).inv(),
            final(self).bits == old(self).bits,
            final(self).scratch == old(self).scratch,
            final(self).rng == old(self).rng,
            r is Err ==> *final(self) == *old(self),
            r == Err::<(), QuantumError>(QuantumError::IndexOutOfRange) <==> target >= old(
                self,
            ).bits,
            r is Ok ==> final(self).state() == mix_map(old(self).state(), 0u64, target, h_mat()),
            (target < old(self).bits && mix_fits(old(self).state(), 0u64, target, h_mat()) && 2
                * old(self).entries@.len() <= MAX_ENTRIES) ==> r is Ok,
            r is Ok ==> final(self).entries@.len() <= 2 * old(self).entries@.len(),
    {
        if target >= self.bits {
            return Err(QuantumError::IndexOutOfRange);
        }
        proof {
            lemma_zero_mask(target);
        }
        self.apply_mix(0u64, target, 1, 0, 1, 0, 1, 0, -1, 0)
    }

    /// Applies the Pauli X (NOT) gate to qubit `target`.
    pub fn sigma_x(&mut self, target: usize) -> (r: Result<(), QuantumError>)
        requires
            old(self).inv(),
        ensures
            final(self).inv(),
            final(self).bits == old(self).bits,
            final(self).scratch == old(self).scratch,
            final(self).rng == old(self).rng,
            r is Err ==> *final(self) == *old(self),
            r == Err::<(), QuantumError>(QuantumError::IndexOutOfRange) <==> target >= old(
                self,
            ).bits,
            r is Ok ==> final(self).state() == mix_map(old(self).state(), 0u64, target, x_mat()),
            (target < old(self).bits && mix_fits(old(self).state(), 0u64, target, x_mat()) && 2
                * old(self).entries@.len() <= MAX_ENTRIES) ==> r is Ok,
            r is Ok ==> final(self).entries@.len() <= 2 * old(self).entries@.len(),
    {
        if target >= self.bits {
            return Err(QuantumError::IndexOutOfRange);
        }
        proof {
            lemma_zero_mask(target);
        }
        self.apply_mix(0u64, target, 0, 0, 1, 0, 1, 0, 0, 0)
    }

    /// Applies the Pauli Y gate to qubit `target`.
    pub fn sigma_y(&mut self, target: usize) -> (r: Result<(), QuantumError>)
        requires
            old(self).inv(),
        ensures
            final(self).inv(),
            final(self).bits == old(self).bits,
            final(self).scratch == old(self).scratch,
            final(self).rng == old(self).rng,
            r is Err ==> *final(self) == *old(self),
            r == Err::<(), QuantumError>(QuantumError::IndexOutOfRange) <==> target >= old(
                self,
            ).bits,
            r is Ok ==> final(self).state() == mix_map(old(self).state(), 0u64, target, y_mat()),
            (target < old(self).bits && mix_fits(old(self).state(), 0u64, target, y_mat()) && 2
                * old(self).entries@.len() <= MAX_ENTRIES) ==> r is Ok,
            r is Ok ==> final(self).entries@.len() <= 2 * old(self).entries@.len(),
    {
        if target >= self.bits {
            return Err(QuantumError::IndexOutOfRange);
        }
        proof {
            lemma_zero_mask(target);
        }
        self.apply_mix(0u64, target, 0, 0, 0, -1, 0, 1, 0, 0)
    }

    /// Applies the Pauli Z gate to qubit `target`: the amplitude of every
    /// basis state with the target bit set is negated.
    pub fn sigma_z(&mut self, target: usize) -> (r: Result<(), QuantumError>)
        requires
            old(self).inv(),
        ensures
            final(self).inv(),
            final(self).bits == old(self).bits,
            final(self).scratch == old(self).scratch,
            final(self).rng == old(self).rng,
            r is Err ==> *final(self) == *old(self),
            r == Err::<(), QuantumError>(QuantumError::IndexOutOfRange) <==> target >= old(
                self,
            ).bits,
            r is Ok ==> final(self).state() == diag_map(
                old(self).state(),
                (1u64 << (target as u64)),
                (1int, 0int),
                (-1int, 0int),
            ),
            r is Ok <==> target < old(self).bits && diag_fits(
                old(self).state(),
                (1u64 << (target as u64)),
                (1int, 0int),
                (-1int, 0int),
            ),
            r is Ok ==> mass(final(self).entries@) == mass(old(self).entries@),
    {
        if target >= self.bits {
            return Err(QuantumError::IndexOutOfRange);
        }
        let r = self.apply_diag(1u64 << (target as u64), 1, 0, -1, 0);
        proof {
            assert(((-1i64) as int, (0i64) as int) == (-1int, 0int));
            assert(sq((-1int, 0int)) == 1int) by (nonlinear_arith);
            let mo = mass(old(self).entries@);
            assert(1int * mo == mo) by (nonlinear_arith);
        }
        r
    }

    /// Applies a controlled-NOT: flips qubit `target` on every basis state
    /// whose `control` bit is set.
    pub fn cnot(&mut self, control: usize, target: usize) -> (r: Result<(), QuantumError>)
        requires
            old(self).inv(),
        ensures
            final(self).inv(),
            final(self).bits == old(self).bits,
            final(self).scratch == old(self).scratch,
            final(self).rng == old(self).rng,
            r is Err ==> *final(self) == *old(self),
            r == Err::<(), QuantumError>(QuantumError::IndexOutOfRange) <==> (control >= old(
                self,
            ).bits || target >= old(self).bits),
            r == Err::<(), QuantumError>(QuantumError::ControlIsTarget) <==> (control < old(
                self,
            ).bits && target < old(self).bits && control == target),
            r is Ok ==> final(self).state() == mix_map(
                old(self).state(),
                (1u64 << (control as u64)),
                target,
                x_mat(),
            ),
            (control < old(self).bits && target < old(self).bits && control != target && mix_fits(
                old(self).state(),
                (1u64 << (control as u64)),
                target,
                x_mat(),
            ) && 2 * old(self).entries@.len() <= MAX_ENTRIES) ==> r is Ok,
            r is Ok ==> final(self).entries@.len() <= 2 * old(self).entries@.len(),
    {
        if control >= self.bits || target >= self.bits {
            return Err(QuantumError::IndexOutOfRange);
        }
        if control == target {
            return Err(QuantumError::ControlIsTarget);
        }
        proof {
            assert((1u64 << (control as u64)) & (1u64 << (target as u64)) == 0) by (bit_vector)
                requires
                    control != target,
                    control < 62usize,
                    target < 62usize,
            ;
        }
        self.apply_mix(1u64 << (control as u64), target, 0, 0, 1, 0, 1, 0, 0, 0)
    }

    /// Applies a Toffoli gate: flips qubit `target` on every basis state
    /// whose `control1` and `control2` bits are both set.
    pub fn toffoli(&mut self, control1: usize, control2: usize, target: usize) -> (r: Result<
        (),
        QuantumError,
    >)
        requires
            old(self).inv(),
        ensures
            final(self).inv(),
            final(self).bits == old(self).bits,
            final(self).scratch == old(self).scratch,
            final(self).rng == old(self).rng,
            r is Err ==> *final(self) == *old(self),
            r == Err::<(), QuantumError>(QuantumError::IndexOutOfRange) <==> (control1 >= old(
                self,
            ).bits || control2 >= old(self).bits || target >= old(self).bits),
            r == Err::<(), QuantumError>(QuantumError::ControlIsTarget) <==> (control1 < old(
                self,
            ).bits && control2 < old(self).bits && target < old(self).bits && (control1 == target
                || control2 == target)),
            r is Ok ==> final(self).state() == mix_map(
                old(self).state(),
                ((1u64 << (control1 as u64)) | (1u64 << (control2 as u64))),
                target,
                x_mat(),
            ),
            (control1 < old(self).bits && control2 < old(self).bits && target < old(self).bits
                && control1 != target && control2 != target && mix_fits(
                old(self).state(),
                ((1u64 << (control1 as u64)) | (1u64 << (control2 as u64))),
                target,
                x_mat(),
            ) && 2 * old(self).entries@.len() <= MAX_ENTRIES) ==> r is Ok,
            r is Ok ==> final(self).entries@.len() <= 2 * old(self).entries@.len(),
    {
        if control1 >= self.bits || control2 >= self.bits || target >= self.bits {
            return Err(QuantumError::IndexOutOfRange);
        }
        if control1 == target || control2 == target {
            return Err(QuantumError::ControlIsTarget);
        }
        proof {
            assert(((1u64 << (control1 as u64)) | (1u64 << (control2 as u64))) & (1u64 << (
            target as u64)) == 0) by (bit_vector)
                requires
                    control1 != target,
                    control2 != target,
                    control1 < 62usize,
                    control2 < 62usize,
                    target < 62usize,
            ;
        }
        self.apply_mix(
            (1u64 << (control1 as u64)) | (1u64 << (control2 as u64)),
            target,
            0,
            0,
            1,
            0,
            1,
            0,
            0,
            0,
        )
    }

    /// Rotates qubit `target` about the x axis; `half` is the exact phasor
    /// of half the rotation angle.
    pub fn rotate_x(&mut self, target: usize, half: &Phasor) -> (r: Result<(), QuantumError>)
        requires
            old(self).inv(),
        ensures
            final(self).inv(),
            final(self).bits == old(self).bits,
            final(self).scratch == old(self).scratch,
            final(self).rng == old(self).rng,
            r is Err ==> *final(self) == *old(self),
            r == Err::<(), QuantumError>(QuantumError::IndexOutOfRange) <==> target >= old(
                self,
            ).bits,
            r == Err::<(), QuantumError>(QuantumError::MalformedPhasor) <==> (target < old(
                self,
            ).bits && !phasor_ok(*half)),
            r is Ok ==> final(self).state() == mix_map(
                old(self).state(),
                0u64,
                target,
                rx_mat(*half),
            ),
            (target < old(self).bits && phasor_ok(*half) && mix_fits(
                old(self).state(),
                0u64,
                target,
                rx_mat(*half),
            ) && 2 * old(self).entries@.len() <= MAX_ENTRIES) ==> r is Ok,
            r is Ok ==> final(self).entries@.len() <= 2 * old(self).entries@.len(),
    {
        if target >= self.bits {
            return Err(QuantumError::IndexOutOfRange);
        }
        if !check_phasor(half) {
            return Err(QuantumError::MalformedPhasor);
        }
        proof {
            lemma_zero_mask(target);
            lemma_rot_det(*half);
        }
        self.apply_mix(
            0u64,
            target,
            half.re,
            0,
            0,
            -half.im,
            0,
            -half.im,
            half.re,
            0,
        )
    }

    /// Rotates qubit `target` about the y axis; `half` is the exact phasor
    /// of half the rotation angle.
    pub fn rotate_y(&mut self, target: usize, half: &Phasor) -> (r: Result<(), QuantumError>)
        requires
            old(self).inv(),
        ensures
            final(self).inv(),
            final(self).bits == old(self).bits,
            final(self).scratch == old(self).scratch,
            final(self).rng == old(self).rng,
            r is Err ==> *final(self) == *old(self),
            r == Err::<(), QuantumError>(QuantumError::IndexOutOfRange) <==> target >= old(
                self,
            ).bits,
            r == Err::<(), QuantumError>(QuantumError::MalformedPhasor) <==> (target < old(
                self,
            ).bits && !phasor_ok(*half)),
            r is Ok ==> final(self).state() == mix_map(
                old(self).state(),
                0u64,
                target,
                ry_mat(*half),
            ),
            (target < old(self).bits && phasor_ok(*half) && mix_fits(
                old(self).state(),
                0u64,
                target,
                ry_mat(*half),
            ) && 2 * old(self).entries@.len() <= MAX_ENTRIES) ==> r is Ok,
            r is Ok ==> final(self).entries@.len() <= 2 * old(self).entries@.len(),
    {
        if target >= self.bits {
            return Err(QuantumError::IndexOutOfRange);
        }
        if !check_phasor(half) {
            return Err(QuantumError::MalformedPhasor);
        }
        proof {
            lemma_zero_mask(target);
            lemma_rot_det(*half);
        }
        self.apply_mix(
            0u64,
            target,
            half.re,
            0,
            -half.im,
            0,
            half.im,
            0,
            half.re,
            0,
        )
    }

    /// Rotates qubit `target` about the z axis; `half` is the exact phasor
    /// of half the rotation angle.  Basis states with the target bit clear
    /// are scaled by the conjugate phase, the others by the phase itself.
    pub fn rotate_z(&mut self, target: usize, half: &Phasor) -> (r: Result<(), QuantumError>)
        requires
            old(self).inv(),
        ensures
            final(self).inv(),
            final(self).bits == old(self).bits,
            final(self).scratch == old(self).scratch,
            final(self).rng == old(self).rng,
            r is Err ==> *final(self) == *old(self),
            r == Err::<(), QuantumError>(QuantumError::IndexOutOfRange) <==> target >= old(
                self,
            ).bits,
            r == Err::<(), QuantumError>(QuantumError::MalformedPhasor) <==> (target < old(
                self,
            ).bits && !phasor_ok(*half)),
            r is Ok ==> final(self).state() == diag_map(
                old(self).state(),
                (1u64 << (target as u64)),
                phasor_conj(*half),
                phasor_val(*half),
            ),
            r is Ok <==> (target < old(self).bits && phasor_ok(*half) && diag_fits(
                old(self).state(),
                (1u64 << (target as u64)),
                phasor_conj(*half),
                phasor_val(*half),
            )),
            r is Ok ==> mass(final(self).entries@) == (half.den as int) * (half.den as int)
                * mass(old(self).entries@),
    {
        if target >= self.bits {
            return Err(QuantumError::IndexOutOfRange);
        }
        if !check_phasor(half) {
            return Err(QuantumError::MalformedPhasor);
        }
        proof {
            lemma_phasor_nonzero(*half);
            assert((half.re as int, -(half.im as int)) == phasor_conj(*half));
            assert(sq(phasor_conj(*half)) == sq(phasor_val(*half)));
        }
        self.apply_diag(1u64 << (target as u64), half.re, -half.im, half.re, half.im)
    }

    /// Scales every amplitude by the phase `ph`: a global phase, observable
    /// by no measurement.  The qubit index is kept for interface parity and
    /// only bounds-checked.
    pub fn phase(&mut self, target: usize, ph: &Phasor) -> (r: Result<(), QuantumError>)
        requires
            old(self).inv(),
        ensures
            final(self).inv(),
            final(self).bits == old(self).bits,
            final(self).scratch == old(self).scratch,
            final(self).rng == old(self).rng,
            r is Err ==> *final(self) == *old(self),
            r == Err::<(), QuantumError>(QuantumError::IndexOutOfRange) <==> target >= old(
                self,
            ).bits,
            r == Err::<(), QuantumError>(QuantumError::MalformedPhasor) <==> (target < old(
                self,
            ).bits && !phasor_ok(*ph)),
            r is Ok ==> final(self).state() == diag_map(
                old(self).state(),
                0u64,
                phasor_val(*ph),
                phasor_val(*ph),
            ),
            r is Ok <==> (target < old(self).bits && phasor_ok(*ph) && diag_fits(
                old(self).state(),
                0u64,
                phasor_val(*ph),
                phasor_val(*ph),
            )),
            r is Ok ==> mass(final(self).entries@) == (ph.den as int) * (ph.den as int) * mass(
                old(self).entries@,
            ),
    {
        if target >= self.bits {
            return Err(QuantumError::IndexOutOfRange);
        }
        if !check_phasor(ph) {
            return Err(QuantumError::MalformedPhasor);
        }
        proof {
            lemma_phasor_nonzero(*ph);
        }
        self.apply_diag(0u64, ph.re, ph.im, ph.re, ph.im)
    }

    /// Applies the phase `ph` to every basis state with the `target` bit
    /// set; the other basis states are scaled by the phasor's denominator,
    /// which keeps all relative magnitudes meaningful.
    pub fn phaseby(&mut self, target: usize, ph: &Phasor) -> (r: Result<(), QuantumError>)
        requires
            old(self).inv(),
        ensures
            final(self).inv(),
            final(self).bits == old(self).bits,
            final(self).scratch == old(self).scratch,
            final(self).rng == old(self).rng,
            r is Err ==> *final(self) == *old(self),
            r == Err::<(), QuantumError>(QuantumError::IndexOutOfRange) <==> target >= old(
                self,
            ).bits,
            r == Err::<(), QuantumError>(QuantumError::MalformedPhasor) <==> (target < old(
                self,
            ).bits && !phasor_ok(*ph)),
            r is Ok ==> final(self).state() == diag_map(
                old(self).state(),
                (1u64 << (target as u64)),
                phasor_den(*ph),
                phasor_val(*ph),
            ),
            r is Ok <==> (target < old(self).bits && phasor_ok(*ph) && diag_fits(
                old(self).state(),
                (1u64 << (target as u64)),
                phasor_den(*ph),
                phasor_val(*ph),
            )),
            r is Ok ==> mass(final(self).entries@) == (ph.den as int) * (ph.den as int) * mass(
                old(self).entries@,
            ),
    {
        if target >= self.bits {
            return Err(QuantumError::IndexOutOfRange);
        }
        if !check_phasor(ph) {
            return Err(QuantumError::MalformedPhasor);
        }
        proof {
            lemma_phasor_nonzero(*ph);
        }
        self.apply_diag(1u64 << (target as u64), ph.den, 0, ph.re, ph.im)
    }

    /// Applies a conditional phase of angle `pi / 2^(control - target)` to
    /// every basis state with both the `control` and `target` bits set,
    /// through the built-in table of exact rational circle points.
    pub fn cond_phase(&mut self, control: usize, target: usize) -> (r: Result<(), QuantumError>)
        requires
            old(self).inv(),
        ensures
            final(self).inv(),
            final(self).bits == old(self).bits,
            final(self).scratch == old(self).scratch,
            final(self).rng == old(self).rng,
            r is Err ==> *final(self) == *old(self),
            final(self).entries@.len() == old(self).entries@.len(),
            r == Err::<(), QuantumError>(QuantumError::IndexOutOfRange) <==> (control >= old(
                self,
            ).bits || target >= old(self).bits),
            r == Err::<(), QuantumError>(QuantumError::ControlIsTarget) <==> (control < old(
                self,
            ).bits && target < old(self).bits && control == target),
            r is Ok ==> final(self).state() == diag_map(
                old(self).state(),
                ((1u64 << (control as u64)) | (1u64 << (target as u64))),
                phasor_den(turn_for(qubit_dist(control, target))),
                phasor_val(turn_for(qubit_dist(control, target))),
            ),
            r is Ok <==> (control < old(self).bits && target < old(self).bits && control != target
                && diag_fits(
                old(self).state(),
                ((1u64 << (control as u64)) | (1u64 << (target as u64))),
                phasor_den(turn_for(qubit_dist(control, target))),
                phasor_val(turn_for(qubit_dist(control, target))),
            )),
    {
        if control >= self.bits || target >= self.bits {
            return Err(QuantumError::IndexOutOfRange);
        }
        if control == target {
            return Err(QuantumError::ControlIsTarget);
        }
        let dist = if control >= target {
            control - target
        } else {
            target - control
        };
        let ph = turn_table(dist);
        proof {
            lemma_phasor_nonzero(ph);
        }
        self.cond_mask_phase(control, target, ph)
    }

    /// Applies the phase `ph` to every basis state with both the `control`
    /// and `target` bits set; the others are scaled by the phasor's
    /// denominator.
    pub fn cond_phaseby(&mut self, control: usize, target: usize, ph: &Phasor) -> (r: Result<
        (),
        QuantumError,
    >)
        requires
            old(self).inv(),
        ensures
            final(self).inv(),
            final(self).bits == old(self).bits,
            final(self).scratch == old(self).scratch,
            final(self).rng == old(self).rng,
            r is Err ==> *final(self) == *old(self),
            final(self).entries@.len() == old(self).entries@.len(),
            r == Err::<(), QuantumError>(QuantumError::IndexOutOfRange) <==> (control >= old(
                self,
            ).bits || target >= old(self).bits),
            r == Err::<(), QuantumError>(QuantumError::ControlIsTarget) <==> (control < old(
                self,
            ).bits && target < old(self).bits && control == target),
            r == Err::<(), QuantumError>(QuantumError::MalformedPhasor) <==> (control < old(
                self,
            ).bits && target < old(self).bits && control != target && !phasor_ok(*ph)),
            r is Ok ==> final(self).state() == diag_map(
                old(self).state(),
                ((1u64 << (control as u64)) | (1u64 << (target as u64))),
                phasor_den(*ph),
                phasor_val(*ph),
            ),
            r is Ok <==> (control < old(self).bits && target < old(self).bits && control != target
                && phasor_ok(*ph) && diag_fits(
                old(self).state(),
                ((1u64 << (control as u64)) | (1u64 << (target as u64))),
                phasor_den(*ph),
                phasor_val(*ph),
            )),
            r is Ok ==> mass(final(self).entries@) == (ph.den as int) * (ph.den as int) * mass(
                old(self).entries@,
            ),
    {
        if control >= self.bits || target >= self.bits {
            return Err(QuantumError::IndexOutOfRange);
        }
        if control == target {
            return Err(QuantumError::ControlIsTarget);
        }
        if !check_phasor(ph) {
            return Err(QuantumError::MalformedPhasor);
        }
        proof {
            lemma_phasor_nonzero(*ph);
        }
        self.cond_mask_phase(control, target, *ph)
    }

    /// The shared body of the conditional phase gates: a diagonal gate on
    /// the mask of the two qubits, with a phasor already checked.
    fn cond_mask_phase(&mut self, control: usize, target: usize, ph: Phasor) -> (r: Result<
        (),
        QuantumError,
    >)
        requires
            old(self).inv(),
            phasor_ok(ph),
            control < 64,
            target < 64,
        ensures
            final(self).bits == old(self).bits,
            final(self).scratch == old(self).scratch,
            final(self).rng == old(self).rng,
            final(self).inv(),
            final(self).entries@.len() == old(self).entries@.len(),
            r is Ok <==> diag_fits(
                old(self).state(),
                ((1u64 << (control as u64)) | (1u64 << (target as u64))),
                phasor_den(ph),
                phasor_val(ph),
            ),
            r is Ok ==> final(self).state() == diag_map(
                old(self).state(),
                ((1u64 << (control as u64)) | (1u64 << (target as u64))),
                phasor_den(ph),
                phasor_val(ph),
            ),
            r is Err ==> *final(self) == *old(self) && r == Err::<(), QuantumError>(
                QuantumError::AmplitudeOverflow,
            ),
            r is Ok ==> mass(final(self).entries@) == (ph.den as int) * (ph.den as int) * mass(
                old(self).entries@,
            ),
    {
        proof {
            lemma_phasor_nonzero(ph);
        }
        self.apply_diag(
            (1u64 << (control as u64)) | (1u64 << (target as u64)),
            ph.den,
            0,
            ph.re,
            ph.im,
        )
    }
}

/// A well-formed phasor and its denominator are nonzero as complex
/// numbers, and all three carriers share the squared magnitude
/// `den * den`, so a diagonal gate built from them scales every
/// probability weight uniformly.
proof fn lemma_phasor_nonzero(ph: Phasor)
    requires
        phasor_ok(ph),
    ensures
        phasor_val(ph) != (0int, 0int),
        phasor_conj(ph) != (0int, 0int),
        phasor_den(ph) != (0int, 0int),
        in_coef_range(phasor_val(ph)),
        in_coef_range(phasor_conj(ph)),
        in_coef_range(phasor_den(ph)),
        sq(phasor_val(ph)) == (ph.den as int) * (ph.den as int),
        sq(phasor_conj(ph)) == (ph.den as int) * (ph.den as int),
        sq(phasor_den(ph)) == (ph.den as int) * (ph.den as int),
{
    let c = ph.re as int;
    let sn = ph.im as int;
    let dn = ph.den as int;
    if c == 0 && sn == 0 {
        assert(dn * dn == 0);
        assert(dn >= 1);
        assert(dn * dn >= 1) by (nonlinear_arith)
            requires
                dn >= 1,
        ;
    }
    assert((-sn) * (-sn) == sn * sn) by (nonlinear_arith);
    assert(dn * dn + 0int * 0int == dn * dn);
}

/// The state restricted to the basis indices whose bits under `tm` match
/// the measured outcome `b`; the inconsistent indices drop to zero.
pub open spec fn collapse_map(m: Map<u64, (int, int)>, tm: u64, b: bool) -> Map<u64, (int, int)> {
    Map::new(
        |j: u64| true,
        |j: u64|
            if (j & tm == tm) == b {
                m[j]
            } else {
                (0int, 0int)
            },
    )
}

/// Removes bit `pos` from a basis index: the higher bits shift down one
/// position.
pub open spec fn drop_bit(j: u64, pos: usize) -> u64 {
    ((j >> ((pos as u64) + 1)) << (pos as u64)) | (j & (((1u64 << (pos as u64)) - 1) as u64))
}

/// Re-inserts bit `pos` with value `b` into a basis index from which it
/// was dropped.
pub open spec fn insert_bit(j: u64, pos: usize, b: bool) -> u64 {
    ((j >> (pos as u64)) << ((pos as u64) + 1)) | (j & (((1u64 << (pos as u64)) - 1) as u64)) | (
    if b {
        1u64 << (pos as u64)
    } else {
        0u64
    })
}

/// The state after measuring bit `pos` with outcome `b` and discarding the
/// qubit: the consistent amplitudes, re-addressed with the higher qubits
/// shifted down one position.
pub open spec fn discard_map(m: Map<u64, (int, int)>, pos: usize, b: bool) -> Map<u64, (int, int)> {
    Map::new(
        |j: u64| true,
        |j: u64|
            if j < (1u64 << 63u64) {
                m[insert_bit(j, pos, b)]
            } else {
                (0int, 0int)
            },
    )
}

/// The state of a register whose basis indices were shifted up by `b`
/// freshly zeroed scratch positions.
pub open spec fn scratch_map(m: Map<u64, (int, int)>, b: usize) -> Map<u64, (int, int)> {
    Map::new(
        |j: u64| true,
        |j: u64|
            if j & mask_bits(b) == 0 {
                m[(j >> (b as u64))]
            } else {
                (0int, 0int)
            },
    )
}

/// The state after applying a Hadamard gate to each of the first `k`
/// qubits in turn.
pub open spec fn walsh_map(m: Map<u64, (int, int)>, k: usize) -> Map<u64, (int, int)>
    decreases k,
{
    if k == 0 {
        m
    } else {
        mix_map(walsh_map(m, (k - 1) as usize), 0u64, (k - 1) as usize, h_mat())
    }
}

/// A basis index beyond the register's width denotes zero.
proof fn lemma_amp_of_high(s: Seq<Entry>, bits: usize, j: u64)
    requires
        forall|k: int| 0 <= k < s.len() ==> entry_ok(#[trigger] s[k], bits),
        j >= (1u64 << (bits as u64)),
    ensures
        amp_of(s, j) == (0int, 0int),
{
    crate::store::lemma_contains_iff(s, j);
    if contains_idx(s, j) {
        let k = choose|k: int| 0 <= k < s.len() && s[k].idx == j;
        assert(false);
    } else {
        crate::store::lemma_amp_of_absent(s, j);
    }
}

/// A prefix of a store carries at most the store's whole mass.
proof fn lemma_mass_take_le(s: Seq<Entry>, k: int)
    requires
        0 <= k <= s.len(),
    ensures
        mass(s.take(k)) <= mass(s),
    decreases s.len(),
{
    if k == s.len() {
        assert(s.take(k) =~= s);
    } else {
        crate::gauss::lemma_sq_sign(amp(s.last()));
        assert(s.drop_last().take(k) =~= s.take(k));
        lemma_mass_take_le(s.drop_last(), k);
    }
}

/// The squared magnitude of one entry, exactly, as a wide integer.
fn entry_sq(e: &Entry) -> (r: u128)
    requires
        -AMP_LIMIT <= e.re <= AMP_LIMIT,
        -AMP_LIMIT <= e.im <= AMP_LIMIT,
    ensures
        r as int == sq(amp(*e)),
        r <= 0x4000_0000_0000_0000_0000_0000u128,
{
    proof {
        let lim = AMP_LIMIT as int;
        crate::gauss::lemma_mul_bound(e.re as int, e.re as int, lim, lim);
        crate::gauss::lemma_mul_bound(e.im as int, e.im as int, lim, lim);
        crate::gauss::lemma_sq_sign(amp(*e));
    }
    let rr = (e.re as i128) * (e.re as i128);
    let ii = (e.im as i128) * (e.im as i128);
    (rr + ii) as u128
}

/// Sums the squared magnitudes over the whole store.
fn mass_total(v: &Vec<Entry>, bits: usize) -> (r: u128)
    requires
        forall|k: int| 0 <= k < v@.len() ==> entry_ok(#[trigger] v@[k], bits),
        v@.len() <= MAX_ENTRIES,
    ensures
        r as int == mass(v@),
{
    let n = v.len();
    let mut acc: u128 = 0;
    let mut k: usize = 0;
    while k < n
        invariant
            0 <= k <= n,
            n == v@.len() <= MAX_ENTRIES,
            forall|k1: int| 0 <= k1 < v@.len() ==> entry_ok(#[trigger] v@[k1], bits),
            acc as int == mass(v@.take(k as int)),
            acc <= (k as u128) * 0x4000_0000_0000_0000_0000_0000u128,
        decreases n - k,
    {
        let t = entry_sq(&v[k]);
        proof {
            assert(v@.take(k as int + 1) =~= v@.take(k as int).push(v@[k as int]));
            crate::store::lemma_mass_push(v@.take(k as int), v@[k as int], 0u64, true);
            assert((k as u128 + 1) * 0x4000_0000_0000_0000_0000_0000u128 == (k as u128)
                * 0x4000_0000_0000_0000_0000_0000u128 + 0x4000_0000_0000_0000_0000_0000u128)
                by (nonlinear_arith);
            assert((k as u128 + 1) * 0x4000_0000_0000_0000_0000_0000u128 <= 1048577u128
                * 0x4000_0000_0000_0000_0000_0000u128) by (nonlinear_arith)
                requires
                    k as u128 + 1 <= 1048577u128,
            ;
        }
        acc = acc + t;
        k += 1;
    }
    proof {
        assert(v@.take(n as int) =~= v@);
    }
    acc
}

/// Sums the squared magnitudes over the entries whose index matches the
/// mask condition.
fn mass_matching(v: &Vec<Entry>, m: u64, b: bool, bits: usize) -> (r: u128)
    requires
        forall|k: int| 0 <= k < v@.len() ==> entry_ok(#[trigger] v@[k], bits),
        v@.len() <= MAX_ENTRIES,
    ensures
        r as int == mass_cond(v@, m, b),
{
    let n = v.len();
    let mut acc: u128 = 0;
    let mut k: usize = 0;
    while k < n
        invariant
            0 <= k <= n,
            n == v@.len() <= MAX_ENTRIES,
            forall|k1: int| 0 <= k1 < v@.len() ==> entry_ok(#[trigger] v@[k1], bits),
            acc as int == mass_cond(v@.take(k as int), m, b),
            acc <= (k as u128) * 0x4000_0000_0000_0000_0000_0000u128,
        decreases n - k,
    {
        proof {
            assert(v@.take(k as int + 1) =~= v@.take(k as int).push(v@[k as int]));
            crate::store::lemma_mass_push(v@.take(k as int), v@[k as int], m, b);
            assert((k as u128 + 1) * 0x4000_0000_0000_0000_0000_0000u128 == (k as u128)
                * 0x4000_0000_0000_0000_0000_0000u128 + 0x4000_0000_0000_0000_0000_0000u128)
                by (nonlinear_arith);
            assert((k as u128 + 1) * 0x4000_0000_0000_0000_0000_0000u128 <= 1048577u128
                * 0x4000_0000_0000_0000_0000_0000u128) by (nonlinear_arith)
                requires
                    k as u128 + 1 <= 1048577u128,
            ;
        }
        if (v[k].idx & m == m) == b {
            let t = entry_sq(&v[k]);
            acc = acc + t;
        }
        k += 1;
    }
    proof {
        assert(v@.take(n as int) =~= v@);
    }
    acc
}

impl QuReg {
    /// Advances the sampling generator one step and returns the next
    /// word, a pure function of the previous state, so sampling is
    /// reproducible on equal register values.
    fn next_rand(&mut self) -> (r: u64)
        ensures
            final(self).entries == old(self).entries,
            final(self).bits == old(self).bits,
            final(self).scratch == old(self).scratch,
            r == next_word(old(self).rng),
            final(self).rng == next_word(old(self).rng),
    {
        let mut x = self.rng;
        x = x ^ (x << 13);
        x = x ^ (x >> 7);
        x = x ^ (x << 17);
        self.rng = x;
        x
    }

    /// Draws a value below `n` from the register's generator; the value is
    /// a pure function of the generator state.
    fn draw_below(&mut self, n: u128) -> (r: u128)
        requires
            n >= 1,
        ensures
            r < n,
            r as int == draw_from(old(self).rng, n as int),
            final(self).entries == old(self).entries,
            final(self).bits == old(self).bits,
            final(self).scratch == old(self).scratch,
    {
        let hi = self.next_rand();
        let lo = self.next_rand();
        let x = ((hi as u128) << 64) | (lo as u128);
        proof {
            assert(((hi as u128) << 64u128) | (lo as u128) == (hi as u128)
                * 0x1_0000_0000_0000_0000u128 + (lo as u128)) by (bit_vector);
        }
        x % n
    }

    /// Measures the whole register, consuming it: samples one basis state
    /// with probability proportional to its squared magnitude and returns
    /// its index.  The result always carries a nonzero amplitude, so a
    /// register holding a classical state returns exactly that state.
    pub fn measure(self) -> (r: u64)
        requires
            self.inv(),
        ensures
            amp_of(self.entries@, r) != (0int, 0int),
            r < (1u64 << (self.bits as u64)),
            forall|b: u64| self.certainly(b) ==> r == b,
            r == sample_index(self.entries@, draw_from(self.rng, mass(self.entries@))),
    {
        let ghost s = self.entries@;
        let ghost rng0 = self.rng;
        let mut this = self;
        let total = mass_total(&this.entries, this.bits);
        proof {
            crate::store::lemma_mass_lower(s, 0);
            crate::gauss::lemma_sq_sign(amp(s[0]));
        }
        let u = this.draw_below(total);
        let ghost u0 = u as int;
        proof {
            assert(u0 == draw_from(rng0, mass(s)));
            assert(s.subrange(0, s.len() as int) =~= s);
        }
        let n = this.entries.len();
        let mut acc: u128 = 0;
        let mut k: usize = 0;
        while k < n
            invariant
                0 <= k <= n,
                n == s.len(),
                s == this.entries@,
                s == self.entries@,
                this.inv(),
                this.bits == self.bits,
                total as int == mass(s),
                acc as int == mass(s.take(k as int)),
                acc <= u < total,
                u0 == u as int,
                u0 == draw_from(self.rng, mass(s)),
                sample_index(s, u0) == sample_index(
                    s.subrange(k as int, s.len() as int),
                    u0 - acc,
                ),
            decreases n - k,
        {
            let t = entry_sq(&this.entries[k]);
            proof {
                assert(s.take(k as int + 1) =~= s.take(k as int).push(s[k as int]));
                crate::store::lemma_mass_push(s.take(k as int), s[k as int], 0u64, true);
                lemma_mass_take_le(s, k as int + 1);
                let tail = s.subrange(k as int, s.len() as int);
                assert(tail[0] == s[k as int]);
                assert(tail.subrange(1, tail.len() as int) =~= s.subrange(
                    k as int + 1,
                    s.len() as int,
                ));
            }
            if u < acc + t {
                proof {
                    crate::store::lemma_amp_of_entry(s, k as int);
                    assert(entry_ok(s[k as int], this.bits));
                    assert(amp(s[k as int]) != (0int, 0int));
                    assert(amp_of(s, s[k as int].idx) != (0int, 0int));
                    assert(sample_index(s, u0) == s[k as int].idx);
                }
                return this.entries[k].idx;
            }
            acc = acc + t;
            k += 1;
        }
        proof {
            assert(s.take(n as int) =~= s);
            assert(false);
        }
        0
    }

    /// Measures qubit `pos` without discarding it: samples an outcome with
    /// the marginal probability of that bit, then collapses the register to
    /// the basis states consistent with the outcome.  When one outcome
    /// carries the whole mass, that outcome is certain.
    pub fn measure_bit_preserve(&mut self, pos: usize) -> (r: Result<bool, QuantumError>)
        requires
            old(self).inv(),
        ensures
            final(self).inv(),
            final(self).bits == old(self).bits,
            final(self).scratch == old(self).scratch,
            r is Err ==> *final(self) == *old(self) && r == Err::<bool, QuantumError>(
                QuantumError::IndexOutOfRange,
            ),
            r is Err <==> pos >= old(self).bits,
            r is Ok ==> final(self).state() == collapse_map(
                old(self).state(),
                (1u64 << (pos as u64)),
                r->Ok_0,
            ),
            r is Ok && mass_cond(old(self).entries@, (1u64 << (pos as u64)), true) == 0 ==> r == Ok::<
                bool,
                QuantumError,
            >(false),
            r is Ok && mass_cond(old(self).entries@, (1u64 << (pos as u64)), false) == 0 ==> r
                == Ok::<bool, QuantumError>(true),
            r is Ok ==> mass_cond(
                old(self).entries@,
                (1u64 << (pos as u64)),
                r->Ok_0,
            ) > 0,
    {
        if pos >= self.bits {
            return Err(QuantumError::IndexOutOfRange);
        }
        let ghost s = self.entries@;
        let ghost m0 = self.state();
        let tm = 1u64 << (pos as u64);
        let m1 = mass_matching(&self.entries, tm, true, self.bits);
        let total = mass_total(&self.entries, self.bits);
        proof {
            crate::store::lemma_mass_split(s, tm);
            crate::store::lemma_mass_cond_bounds(s, tm, true);
            crate::store::lemma_mass_cond_bounds(s, tm, false);
            crate::store::lemma_mass_lower(s, 0);
            crate::gauss::lemma_sq_sign(amp(s[0]));
        }
        let u = self.draw_below(total);
        let outcome = u < m1;
        proof {
            if outcome {
                assert(mass_cond(s, tm, true) > 0);
            } else {
                assert(mass_cond(s, tm, false) > 0);
            }
        }
        let n = self.entries.len();
        let mut out: Vec<Entry> = Vec::new();
        let mut k: usize = 0;
        while k < n
            invariant
                0 <= k <= n,
                n == s.len(),
                s == self.entries@,
                self.inv(),
                tm == 1u64 << (pos as u64),
                out@.len() <= k,
                uniq(out@),
                forall|k1: int| 0 <= k1 < out@.len() ==> entry_ok(#[trigger] out@[k1], self.bits),
                forall|k1: int| 0 <= k1 < out@.len() ==> (#[trigger] out@[k1].idx & tm == tm)
                    == outcome,
                mass(out@) == mass_cond(s.take(k as int), tm, outcome),
                forall|j: u64| (j & tm == tm) == outcome ==> #[trigger] amp_of(out@, j) == amp_of(
                    s.take(k as int),
                    j,
                ),
                forall|j: u64| (j & tm == tm) != outcome ==> #[trigger] amp_of(out@, j) == (
                0int,
                0int,
                ),
            decreases n - k,
        {
            let e = self.entries[k];
            let ghost out_old = out@;
            let ghost tk = s.take(k as int);
            proof {
                assert(s.take(k as int + 1) =~= tk.push(s[k as int]));
                crate::store::lemma_mass_push(tk, s[k as int], tm, outcome);
            }
            if (e.idx & tm == tm) == outcome {
                proof {
                    // The incoming index is new to `out`.
                    crate::store::lemma_contains_iff(tk, e.idx);
                    if contains_idx(tk, e.idx) {
                        let k1 = choose|k1: int| 0 <= k1 < tk.len() && tk[k1].idx == e.idx;
                        assert(s[k1].idx == s[k as int].idx);
                        assert(false);
                    }
                    crate::store::lemma_amp_of_absent(tk, e.idx);
                    assert forall|k1: int| 0 <= k1 < out_old.len() implies #[trigger] out_old[k1].idx
                        != e.idx by {
                        if out_old[k1].idx == e.idx {
                            crate::store::lemma_amp_of_entry(out_old, k1);
                        }
                    }
                    crate::store::lemma_mass_push(out_old, s[k as int], tm, outcome);
                }
                out.push(e);
                proof {
                    assert forall|j: u64| #[trigger] amp_of(out@, j) == (if j == e.idx {
                        amp(e)
                    } else {
                        amp_of(out_old, j)
                    }) by {
                        crate::store::lemma_amp_of_push(out_old, e, j);
                    }
                    assert forall|j: u64| (j & tm == tm) == outcome implies #[trigger] amp_of(
                        out@,
                        j,
                    ) == amp_of(s.take(k as int + 1), j) by {
                        crate::store::lemma_amp_of_push(tk, s[k as int], j);
                    }
                }
            } else {
                proof {
                    assert forall|j: u64| (j & tm == tm) == outcome implies #[trigger] amp_of(
                        out@,
                        j,
                    ) == amp_of(s.take(k as int + 1), j) by {
                        crate::store::lemma_amp_of_push(tk, s[k as int], j);
                    }
                }
            }
            k += 1;
        }
        proof {
            assert(s.take(n as int) =~= s);
            if out@.len() == 0 {
                assert(mass(out@) == 0);
            }
            assert(out@.len() >= 1);
        }
        self.entries = out;
        proof {
            assert(self.state() =~= collapse_map(m0, tm, outcome));
        }
        Ok(outcome)
    }

    /// Measures qubit `pos` and discards it: the register collapses to the
    /// sampled outcome, the qubit leaves the register, and every higher
    /// qubit moves down one position.  Measuring a scratch qubit releases
    /// one unit of the scratch count.
    pub fn measure_bit(&mut self, pos: usize) -> (r: Result<bool, QuantumError>)
        requires
            old(self).inv(),
        ensures
            final(self).inv(),
            r is Err ==> *final(self) == *old(self) && r == Err::<bool, QuantumError>(
                QuantumError::IndexOutOfRange,
            ),
            r is Err <==> pos >= old(self).bits,
            r is Ok ==> final(self).bits == old(self).bits - 1,
            r is Ok ==> final(self).scratch == (if pos < old(self).scratch {
                (old(self).scratch - 1) as usize
            } else {
                old(self).scratch
            }),
            r is Ok ==> final(self).state() == discard_map(old(self).state(), pos, r->Ok_0),
            r is Ok && mass_cond(old(self).entries@, (1u64 << (pos as u64)), true) == 0 ==> r == Ok::<
                bool,
                QuantumError,
            >(false),
            r is Ok && mass_cond(old(self).entries@, (1u64 << (pos as u64)), false) == 0 ==> r
                == Ok::<bool, QuantumError>(true),
    {
        let ghost m0 = self.state();
        if pos >= self.bits {
            return Err(QuantumError::IndexOutOfRange);
        }
        let b = match self.measure_bit_preserve(pos) {
            Ok(b) => b,
            Err(e) => {
                return Err(e);
            },
        };
        let ghost s1 = self.entries@;
        let ghost m1 = self.state();
        let tm = 1u64 << (pos as u64);
        proof {
            assert(1u64 << (pos as u64) >= 1) by (bit_vector)
                requires
                    pos < 62usize,
            ;
            assert forall|k1: int| 0 <= k1 < s1.len() implies (#[trigger] s1[k1].idx & tm == tm)
                == b by {
                crate::store::lemma_amp_of_entry(s1, k1);
                assert(m1[s1[k1].idx] == collapse_map(m0, tm, b)[s1[k1].idx]);
            }
        }
        let n = self.entries.len();
        let mut out: Vec<Entry> = Vec::new();
        let mut k: usize = 0;
        let low_mask = (1u64 << (pos as u64)) - 1;
        while k < n
            invariant
                0 <= k <= n,
                n == s1.len(),
                s1 == self.entries@,
                self.inv(),
                pos < self.bits,
                tm == 1u64 << (pos as u64),
                low_mask == ((1u64 << (pos as u64)) - 1) as u64,
                forall|k1: int| 0 <= k1 < s1.len() ==> (#[trigger] s1[k1].idx & tm == tm) == b,
                out@.len() == k,
                forall|k1: int| 0 <= k1 < k ==> (#[trigger] out@[k1]).idx == drop_bit(
                    s1[k1].idx,
                    pos,
                ),
                forall|k1: int| 0 <= k1 < k ==> amp(#[trigger] out@[k1]) == amp(s1[k1]),
                forall|k1: int| 0 <= k1 < k ==> (#[trigger] out@[k1]).idx < (1u64 << (
                (self.bits - 1) as u64)),
                forall|k1: int| 0 <= k1 < k ==> -AMP_LIMIT <= (#[trigger] out@[k1]).re <= AMP_LIMIT
                    && -AMP_LIMIT <= out@[k1].im <= AMP_LIMIT && !(out@[k1].re == 0 && out@[k1].im
                    == 0),
            decreases n - k,
        {
            let e = self.entries[k];
            let ei = e.idx;
            let ni = ((ei >> ((pos as u64) + 1)) << (pos as u64)) | (ei & low_mask);
            proof {
                let w = self.bits;
                assert(ni == drop_bit(s1[k as int].idx, pos));
                assert(ni < (1u64 << ((w - 1) as u64))) by (bit_vector)
                    requires
                        ni == ((ei >> ((pos as u64) + 1)) << (pos as u64)) | (ei & (((1u64 << (
                        pos as u64)) - 1) as u64)),
                        ei < (1u64 << (w as u64)),
                        pos < w,
                        w <= 62usize,
                        1 <= w,
                ;
            }
            out.push(Entry { idx: ni, re: e.re, im: e.im });
            k += 1;
        }
        proof {
            let ghost good = |j: u64| (j & tm == tm) == b;
            let ghost f = |j: u64| drop_bit(j, pos);
            let ghost g = |a: (int, int), j: u64| a;
            assert forall|j1: u64, j2: u64|
                good(j1) && good(j2) && #[trigger] f(j1) == #[trigger] f(j2) implies j1 == j2 by {
                assert((((j1 & tm == tm) == (j2 & tm == tm)) && drop_bit(j1, pos) == drop_bit(
                    j2,
                    pos,
                )) ==> j1 == j2) by (bit_vector)
                    requires
                        tm == 1u64 << (pos as u64),
                        pos < 62usize,
                ;
            }
            crate::store::lemma_amp_of_transform(s1, out@, good, f, g);
            assert forall|k1: int, k2: int| 0 <= k1 < k2 < out@.len() implies out@[k1].idx
                != out@[k2].idx by {
                assert(good(s1[k1].idx) && good(s1[k2].idx));
                assert(f(s1[k1].idx) == out@[k1].idx && f(s1[k2].idx) == out@[k2].idx);
            }
            assert forall|j: u64| j < (1u64 << 63u64) implies #[trigger] amp_of(out@, j)
                == m1.index(insert_bit(j, pos, b)) by {
                let ji = insert_bit(j, pos, b);
                assert((ji & tm == tm) == b && drop_bit(ji, pos) == j) by (bit_vector)
                    requires
                        ji == insert_bit(j, pos, b),
                        tm == 1u64 << (pos as u64),
                        pos < 62usize,
                        j < (1u64 << 63u64),
                ;
                assert(good(ji) && f(ji) == j);
                assert(amp_of(out@, j) == g(amp_of(s1, ji), ji));
            }
            assert forall|j: u64| j >= (1u64 << 63u64) implies #[trigger] amp_of(out@, j) == (
            0int,
            0int,
            ) by {
                crate::store::lemma_contains_iff(out@, j);
                if contains_idx(out@, j) {
                    let k1 = choose|k1: int| 0 <= k1 < out@.len() && out@[k1].idx == j;
                    let w = self.bits;
                    assert(out@[k1].idx < (1u64 << ((w - 1) as u64)));
                    assert((1u64 << ((w - 1) as u64)) <= (1u64 << 63u64)) by (bit_vector)
                        requires
                            w <= 62usize,
                            1 <= w,
                    ;
                } else {
                    crate::store::lemma_amp_of_absent(out@, j);
                }
            }
        }
        self.entries = out;
        self.bits = self.bits - 1;
        if pos < self.scratch {
            self.scratch = self.scratch - 1;
        }
        proof {
            assert(self.state() =~= discard_map(m1, pos, b));
            assert forall|j: u64| #[trigger] discard_map(m1, pos, b)[j] == discard_map(
                m0,
                pos,
                b,
            )[j] by {
                if j < (1u64 << 63u64) {
                    let ji = insert_bit(j, pos, b);
                    assert((ji & tm == tm) == b) by (bit_vector)
                        requires
                            ji == insert_bit(j, pos, b),
                            tm == 1u64 << (pos as u64),
                            pos < 62usize,
                    ;
                }
            }
            assert(discard_map(m1, pos, b) =~= discard_map(m0, pos, b));
        }
        Ok(b)
    }

    /// Measures and discards the `width` least-significant qubits, one at a
    /// time; the bit sampled in round `i` lands at bit `i` of the result.
    pub fn measure_width(&mut self, width: usize) -> (r: Result<u64, QuantumError>)
        requires
            old(self).inv(),
        ensures
            final(self).inv(),
            r is Err ==> *final(self) == *old(self) && r == Err::<u64, QuantumError>(
                QuantumError::IndexOutOfRange,
            ),
            r is Err <==> width > old(self).bits,
            r is Ok ==> final(self).bits == old(self).bits - width,
            r is Ok ==> final(self).scratch <= old(self).scratch,
            r is Ok ==> r->Ok_0 < (1u64 << (width as u64)),
            forall|b: u64| (r is Ok && #[trigger] old(self).certainly(b)) ==> (r->Ok_0 == b
                & mask_bits(width) && final(self).certainly(b >> (width as u64))),
    {
        if width > self.bits {
            return Err(QuantumError::IndexOutOfRange);
        }
        let ghost bits0 = self.bits;
        let ghost scratch0 = self.scratch;
        proof {
            assert(1u64 << 0u64 == 1u64) by (bit_vector);
            assert forall|b: u64| #[trigger] old(self).certainly(b) implies (self.certainly(
                (b >> (0usize as u64)),
            ) && 0u64 == b & mask_bits(0)) by {
                assert(b >> (0usize as u64) == b && b & (((1u64 << (0usize as u64)) - 1) as u64)
                    == 0u64) by (bit_vector);
            }
        }
        let mut result: u64 = 0;
        let mut i: usize = 0;
        while i < width
            invariant
                0 <= i <= width,
                width <= bits0 <= MAX_WIDTH,
                self.inv(),
                self.bits == bits0 - i,
                self.scratch <= scratch0,
                result < (1u64 << (i as u64)),
                forall|b: u64| #[trigger] old(self).certainly(b) ==> (self.certainly(
                    (b >> (i as u64)),
                ) && result == b & mask_bits(i)),
            decreases width - i,
        {
            let ghost pre = *self;
            let b = match self.measure_bit(0) {
                Ok(b) => b,
                Err(_) => {
                    proof {
                        assert(false);
                    }
                    return Err(QuantumError::IndexOutOfRange);
                },
            };
            proof {
                let iv = i as u64;
                let rr = result;
                assert(rr < (1u64 << iv) && iv < 62 ==> ((rr | (1u64 << iv)) < (1u64 << (iv + 1))
                    && rr < (1u64 << (iv + 1)))) by (bit_vector);
                assert forall|b0: u64| #[trigger] old(self).certainly(b0) implies (self.certainly(
                    (b0 >> ((i + 1) as u64)),
                ) && b == ((b0 >> (i as u64)) & 1u64 == 1u64) && (if b {
                    rr | (1u64 << iv)
                } else {
                    rr
                }) == b0 & mask_bits((i + 1) as usize)) by {
                    let c = b0 >> (i as u64);
                    // The pre-state was certain of c, so the sampled bit is
                    // bit zero of c and the discarded state is certain of
                    // c shifted down by one.
                    lemma_certain_bit(pre, c, 0);
                    assert(1u64 << 0u64 == 1u64) by (bit_vector);
                    let bitv = c & 1u64 == 1u64;
                    assert(b == bitv);
                    assert(self.state() == discard_map(pre.state(), 0, b));
                    assert forall|j: u64| (#[trigger] amp_of(self.entries@, j) != (0int, 0int))
                        <==> j == c >> 1u64 by {
                        assert(self.state()[j] == amp_of(self.entries@, j));
                        if j < (1u64 << 63u64) {
                            let ji = insert_bit(j, 0, bitv);
                            assert((ji == c) == (j == c >> 1u64)) by (bit_vector)
                                requires
                                    ji == insert_bit(j, 0usize, bitv),
                                    bitv == (c & 1u64 == 1u64),
                                    j < (1u64 << 63u64),
                            ;
                            assert(amp_of(self.entries@, j) == pre.state()[ji]);
                            assert((pre.state()[ji] != (0int, 0int)) <==> ji == c);
                        } else {
                            assert(c >> 1u64 < (1u64 << 63u64)) by (bit_vector);
                        }
                    }
                    assert((b0 >> (i as u64)) >> 1u64 == b0 >> ((i + 1) as u64)) by (bit_vector)
                        requires
                            i + 1 <= 62usize,
                    ;
                    assert((rr == b0 & ((((1u64 << (i as u64)) - 1) as u64)) && bitv == ((b0 >> (
                    i as u64)) & 1u64 == 1u64) && i < 62usize) ==> (if bitv {
                        rr | (1u64 << (i as u64))
                    } else {
                        rr
                    }) == b0 & ((((1u64 << ((i + 1) as u64)) - 1) as u64))) by (bit_vector);
                }
            }
            if b {
                result = result | (1u64 << (i as u64));
            }
            i += 1;
        }
        Ok(result)
    }

    /// Measures the given qubit positions without discarding them; the bit
    /// sampled at position `p` lands at bit `p` of the result.  On a
    /// register certain of a classical value, the result is that value
    /// restricted to the named positions and the state does not change.
    pub fn measure_partial(&mut self, positions: &Vec<usize>) -> (r: Result<u64, QuantumError>)
        requires
            old(self).inv(),
        ensures
            final(self).inv(),
            final(self).bits == old(self).bits,
            final(self).scratch == old(self).scratch,
            r is Err ==> *final(self) == *old(self) && r == Err::<u64, QuantumError>(
                QuantumError::IndexOutOfRange,
            ),
            r is Err <==> exists|i: int|
                0 <= i < positions@.len() && #[trigger] positions@[i] >= old(self).bits,
            r is Ok ==> r->Ok_0 < (1u64 << (old(self).bits as u64)),
            forall|b: u64| (r is Ok && #[trigger] old(self).certainly(b)) ==> (final(self).state()
                == old(self).state() && final(self).certainly(b) && r->Ok_0 == b & positions_mask(
                positions@,
                positions@.len(),
            )),
    {
        let n = positions.len();
        let mut k: usize = 0;
        while k < n
            invariant
                0 <= k <= n,
                n == positions@.len(),
                *self == *old(self),
                self.inv(),
                forall|i: int| 0 <= i < k ==> #[trigger] positions@[i] < self.bits,
            decreases n - k,
        {
            if positions[k] >= self.bits {
                return Err(QuantumError::IndexOutOfRange);
            }
            k += 1;
        }
        proof {
            let w = self.bits;
            assert(1u64 << (w as u64) >= 1) by (bit_vector)
                requires
                    w <= 62usize,
            ;
        }
        proof {
            assert forall|b: u64| #[trigger] old(self).certainly(b) implies 0u64 == b
                & positions_mask(positions@, 0nat) by {
                assert(b & 0u64 == 0u64) by (bit_vector);
            }
        }
        let mut result: u64 = 0;
        let mut i: usize = 0;
        while i < n
            invariant
                0 <= i <= n,
                n == positions@.len(),
                self.inv(),
                self.bits == old(self).bits,
                self.scratch == old(self).scratch,
                forall|i2: int| 0 <= i2 < n ==> #[trigger] positions@[i2] < self.bits,
                result < (1u64 << (self.bits as u64)),
                forall|b: u64| #[trigger] old(self).certainly(b) ==> (self.state() == old(
                    self,
                ).state() && result == b & positions_mask(positions@, i as nat)),
            decreases n - i,
        {
            let ghost pre = *self;
            let pos = positions[i];
            let b = match self.measure_bit_preserve(pos) {
                Ok(b) => b,
                Err(_) => {
                    proof {
                        assert(false);
                    }
                    return Err(QuantumError::IndexOutOfRange);
                },
            };
            proof {
                let w = self.bits as u64;
                let pv = pos as u64;
                let rr = result;
                let tm = 1u64 << pv;
                assert((rr < (1u64 << w) && pv < w && w <= 62) ==> (rr | (1u64 << pv)) < (1u64
                    << w)) by (bit_vector);
                assert forall|b0: u64| #[trigger] old(self).certainly(b0) implies (self.state()
                    == old(self).state() && b == (b0 & tm == tm) && (if b {
                    rr | tm
                } else {
                    rr
                }) == b0 & positions_mask(positions@, (i + 1) as nat)) by {
                    // The pre-state was still certain of the value, so the
                    // sampled bit is forced and the collapse keeps the
                    // state.
                    assert forall|j: u64| (#[trigger] amp_of(pre.entries@, j) != (0int, 0int))
                        <==> j == b0 by {
                        assert(pre.state()[j] == old(self).state()[j]);
                        assert(amp_of(old(self).entries@, j) == old(self).state()[j]);
                    }
                    lemma_certain_bit(pre, b0, pos);
                    let bitv = b0 & tm == tm;
                    assert(b == bitv);
                    assert(self.state() == collapse_map(pre.state(), tm, b));
                    assert forall|j: u64| #[trigger] self.state()[j] == pre.state()[j] by {
                        if (j & tm == tm) == b {
                        } else {
                            assert(j != b0);
                            assert(amp_of(pre.entries@, j) == (0int, 0int));
                        }
                    }
                    assert(self.state() =~= pre.state());
                    assert(positions_mask(positions@, (i + 1) as nat) == positions_mask(
                        positions@,
                        i as nat,
                    ) | (1u64 << (positions@[i as int] as u64)));
                    let mm = positions_mask(positions@, i as nat);
                    assert((rr == b0 & mm && bitv == (b0 & tm == tm)) ==> (if bitv {
                        rr | tm
                    } else {
                        rr
                    }) == b0 & (mm | tm)) by (bit_vector)
                        requires
                            tm == 1u64 << pv,
                    ;
                }
            }
            if b {
                result = result | (1u64 << (pos as u64));
            }
            i += 1;
        }
        proof {
            assert forall|b: u64| #[trigger] old(self).certainly(b) implies self.certainly(b) by {
                assert forall|j: u64| (#[trigger] amp_of(self.entries@, j) != (0int, 0int)) <==> j
                    == b by {
                    assert(self.state()[j] == old(self).state()[j]);
                    assert(old(self).state()[j] == amp_of(old(self).entries@, j));
                }
            }
        }
        Ok(result)
    }

    /// Adds `bits` scratch qubits at the least-significant end, initialized
    /// to zero: every basis index shifts up by `bits` positions, and the
    /// logical width stays the same.
    pub fn add_scratch(&mut self, bits: usize)
        requires
            old(self).inv(),
            old(self).bits + bits <= MAX_WIDTH,
        ensures
            final(self).inv(),
            final(self).bits == old(self).bits + bits,
            final(self).scratch == old(self).scratch + bits,
            final(self).state() == scratch_map(old(self).state(), bits),
    {
        let ghost s = self.entries@;
        let ghost m0 = self.state();
        let ghost w0 = self.bits;
        let n = self.entries.len();
        let mut out: Vec<Entry> = Vec::new();
        let mut k: usize = 0;
        while k < n
            invariant
                0 <= k <= n,
                n == s.len(),
                s == self.entries@,
                self.inv(),
                w0 == self.bits,
                w0 + bits <= MAX_WIDTH,
                out@.len() == k,
                forall|k1: int| 0 <= k1 < k ==> (#[trigger] out@[k1]).idx == shift_up(
                    s[k1].idx,
                    bits,
                ),
                forall|k1: int| 0 <= k1 < k ==> amp(#[trigger] out@[k1]) == amp(s[k1]),
                forall|k1: int| 0 <= k1 < k ==> entry_ok(#[trigger] out@[k1], (w0 + bits) as usize),
            decreases n - k,
        {
            let e = self.entries[k];
            let ei = e.idx;
            let ni = ei << (bits as u64);
            proof {
                assert(ni == shift_up(s[k as int].idx, bits));
                let w = w0;
                assert(ni < (1u64 << ((w + bits) as u64))) by (bit_vector)
                    requires
                        ni == ei << (bits as u64),
                        ei < (1u64 << (w as u64)),
                        w + bits <= 62usize,
                ;
            }
            out.push(Entry { idx: ni, re: e.re, im: e.im });
            k += 1;
        }
        proof {
            let ghost good = |j: u64| j < (1u64 << (w0 as u64));
            let ghost f = |j: u64| shift_up(j, bits);
            let ghost g = |a: (int, int), j: u64| a;
            assert forall|j1: u64, j2: u64|
                good(j1) && good(j2) && #[trigger] f(j1) == #[trigger] f(j2) implies j1 == j2 by {
                let w = w0;
                assert((j1 < (1u64 << (w as u64)) && j2 < (1u64 << (w as u64)) && (j1 << (
                bits as u64)) == (j2 << (bits as u64)) && w + bits <= 62) ==> j1 == j2)
                    by (bit_vector);
            }
            crate::store::lemma_amp_of_transform(s, out@, good, f, g);
            assert forall|k1: int, k2: int| 0 <= k1 < k2 < out@.len() implies out@[k1].idx
                != out@[k2].idx by {
                assert(good(s[k1].idx) && good(s[k2].idx));
                assert(f(s[k1].idx) == out@[k1].idx && f(s[k2].idx) == out@[k2].idx);
            }
        }
        self.entries = out;
        self.bits = self.bits + bits;
        self.scratch = self.scratch + bits;
        proof {
            let w = w0;
            assert forall|j: u64| #[trigger] amp_of(self.entries@, j) == scratch_map(m0, bits)[j] by {
                let good = |j2: u64| j2 < (1u64 << (w as u64));
                let f = |j2: u64| shift_up(j2, bits);
                if j & mask_bits(bits) == 0 && (j >> (bits as u64)) < (1u64 << (w as u64)) {
                    let jh = j >> (bits as u64);
                    assert((jh << (bits as u64)) == j) by (bit_vector)
                        requires
                            jh == j >> (bits as u64),
                            j & ((((1u64 << (bits as u64)) - 1) as u64)) == 0,
                            bits <= 62usize,
                    ;
                    assert(good(jh) && f(jh) == j);
                    assert(amp_of(self.entries@, j) == amp_of(s, jh));
                } else {
                    crate::store::lemma_contains_iff(self.entries@, j);
                    if contains_idx(self.entries@, j) {
                        let jw = choose|jw: u64| good(jw) && #[trigger] f(jw) == j;
                        assert((jw << (bits as u64)) & ((((1u64 << (bits as u64)) - 1) as u64))
                            == 0 && ((jw << (bits as u64)) >> (bits as u64)) == jw) by (bit_vector)
                            requires
                                jw < (1u64 << (w as u64)),
                                w + bits <= 62usize,
                        ;
                        assert(false);
                    } else {
                        crate::store::lemma_amp_of_absent(self.entries@, j);
                        if j & mask_bits(bits) == 0 {
                            lemma_amp_of_high(s, w, (j >> (bits as u64)));
                        }
                    }
                }
            }
            assert(self.state() =~= scratch_map(m0, bits));
        }
    }

    /// Applies the Hadamard gate to each of the first `width` qubits in
    /// turn (the Walsh-Hadamard transform).
    pub fn walsh(&mut self, width: usize) -> (r: Result<(), QuantumError>)
        requires
            old(self).inv(),
        ensures
            final(self).inv(),
            final(self).bits == old(self).bits,
            final(self).scratch == old(self).scratch,
            r is Err ==> final(self).entries@ == old(self).entries@ && final(self).rng == old(
                self,
            ).rng,
            r == Err::<(), QuantumError>(QuantumError::IndexOutOfRange) <==> width > old(
                self,
            ).bits,
            r is Ok ==> final(self).state() == walsh_map(old(self).state(), width),
            (width <= old(self).bits && walsh_fits(old(self).state(), width) && pow2(
                width as nat,
            ) * old(self).entries@.len() <= MAX_ENTRIES) ==> r is Ok,
    {
        if width > self.bits {
            return Err(QuantumError::IndexOutOfRange);
        }
        let ghost m0 = self.state();
        let saved = clone_entries(&self.entries);
        let ghost saved0 = *self;
        let mut i: usize = 0;
        while i < width
            invariant
                0 <= i <= width,
                width <= self.bits,
                self.inv(),
                self.bits == saved0.bits,
                self.scratch == saved0.scratch,
                self.rng == saved0.rng,
                saved@ == saved0.entries@,
                saved0.inv(),
                saved0.bits == old(self).bits,
                saved0.scratch == old(self).scratch,
                saved0.rng == old(self).rng,
                saved0.entries@ == old(self).entries@,
                m0 == saved0.state(),
                self.state() == walsh_map(m0, i),
                self.entries@.len() <= pow2(i as nat) * saved0.entries@.len(),
            decreases width - i,
        {
            let ghost len_i = self.entries@.len();
            match self.hadamard(i) {
                Ok(_) => {},
                Err(e) => {
                    proof {
                        // Under the success hypothesis the Hadamard step
                        // cannot have failed.
                        if walsh_fits(m0, width) && pow2(width as nat) * saved0.entries@.len()
                            <= MAX_ENTRIES {
                            lemma_walsh_fits_at(m0, width, i);
                            lemma_pow2_pos(i as nat);
                            assert(pow2((i + 1) as nat) == 2 * pow2(i as nat));
                            lemma_pow2_mono((i + 1) as nat, width as nat);
                            let l0 = saved0.entries@.len() as int;
                            assert(2 * (pow2(i as nat) * l0) == pow2((i + 1) as nat) * l0)
                                by (nonlinear_arith)
                                requires
                                    pow2((i + 1) as nat) == 2 * pow2(i as nat),
                            ;
                            assert(pow2((i + 1) as nat) * l0 <= pow2(width as nat) * l0)
                                by (nonlinear_arith)
                                requires
                                    pow2((i + 1) as nat) <= pow2(width as nat),
                                    l0 >= 0,
                            ;
                            assert(2 * len_i <= MAX_ENTRIES);
                            assert(false);
                        }
                    }
                    self.entries = saved;
                    return Err(e);
                },
            }
            proof {
                assert(walsh_map(m0, (i + 1) as usize) == mix_map(
                    walsh_map(m0, i),
                    0u64,
                    i,
                    h_mat(),
                ));
                assert(pow2((i + 1) as nat) == 2 * pow2(i as nat));
                let l0 = saved0.entries@.len() as int;
                assert(2 * (pow2(i as nat) * l0) == pow2((i + 1) as nat) * l0) by (nonlinear_arith)
                    requires
                        pow2((i + 1) as nat) == 2 * pow2(i as nat),
                ;
            }
            i += 1;
        }
        Ok(())
    }
}

/// A basis index shifted up by `b` scratch positions.
pub open spec fn shift_up(j: u64, b: usize) -> u64 {
    j << (b as u64)
}

/// Copies a store entry for entry.
fn clone_entries(v: &Vec<Entry>) -> (r: Vec<Entry>)
    ensures
        r@ == v@,
{
    let n = v.len();
    let mut out: Vec<Entry> = Vec::new();
    let mut k: usize = 0;
    while k < n
        invariant
            0 <= k <= n,
            n == v@.len(),
            out@ == v@.take(k as int),
        decreases n - k,
    {
        out.push(v[k]);
        proof {
            assert(v@.take(k as int + 1) =~= v@.take(k as int).push(v@[k as int]));
        }
        k += 1;
    }
    proof {
        assert(v@.take(n as int) =~= v@);
    }
    out
}

/// The amplitude the tensor (Kronecker) product of two states assigns to a
/// combined basis index: the first factor occupies the high bits, the
/// second the low `wb` bits.
pub open spec fn tensor_val(
    ma: Map<u64, (int, int)>,
    mb: Map<u64, (int, int)>,
    wb: usize,
    j: u64,
) -> (int, int) {
    cmul(ma[(j >> (wb as u64))], mb[(j & mask_bits(wb))])
}

/// The state of the tensor product of two registers.
pub open spec fn tensor_map(ma: Map<u64, (int, int)>, mb: Map<u64, (int, int)>, wb: usize) -> Map<
    u64,
    (int, int),
> {
    Map::new(|j: u64| true, |j: u64| tensor_val(ma, mb, wb, j))
}

/// Every amplitude of the tensor product stays representable.
pub open spec fn tensor_fits(ma: Map<u64, (int, int)>, mb: Map<u64, (int, int)>, wb: usize) -> bool {
    forall|j: u64| in_amp_range(#[trigger] tensor_val(ma, mb, wb, j))
}

/// Whether an index occurs among the first `n` entries of a store.
pub open spec fn idx_in(s: Seq<Entry>, n: int, x: u64) -> bool {
    exists|k: int| 0 <= k < n && (#[trigger] s[k]).idx == x
}

impl QuReg {
    /// The Kronecker (tensor) product: consumes both registers and builds
    /// the register whose basis states are all pairs, this register's state
    /// in the high bits and `other`'s in the low bits, each pair's
    /// amplitude the product of the two amplitudes.
    pub fn tensor(self, other: QuReg) -> (r: Result<QuReg, QuantumError>)
        requires
            self.inv(),
            other.inv(),
            self.bits + other.bits <= MAX_WIDTH,
        ensures
            r is Ok ==> (r->Ok_0).inv() && (r->Ok_0).bits == self.bits + other.bits && (
            r->Ok_0).scratch == 0 && (r->Ok_0).state() == tensor_map(
                self.state(),
                other.state(),
                other.bits,
            ),
            r is Err ==> (r == Err::<QuReg, QuantumError>(QuantumError::AmplitudeOverflow) || r
                == Err::<QuReg, QuantumError>(QuantumError::CapacityExceeded)),
            r == Err::<QuReg, QuantumError>(QuantumError::AmplitudeOverflow) ==> !tensor_fits(
                self.state(),
                other.state(),
                other.bits,
            ),
            (tensor_fits(self.state(), other.state(), other.bits) && self.entries@.len()
                * other.entries@.len() <= MAX_ENTRIES) ==> r is Ok,
    {
        let ghost sa = self.entries@;
        let ghost sb = other.entries@;
        let ghost ma = self.state();
        let ghost mb = other.state();
        let wa = self.bits;
        let wb = other.bits;
        let na = self.entries.len();
        let nb = other.entries.len();
        proof {
            crate::gauss::lemma_mul_bound(na as int, nb as int, MAX_ENTRIES as int, MAX_ENTRIES as int);
        }
        if (na as u64) * (nb as u64) > (MAX_ENTRIES as u64) {
            proof {
                assert(!(sa.len() * sb.len() <= MAX_ENTRIES)) by (nonlinear_arith)
                    requires
                        sa.len() == na && sb.len() == nb,
                        (na as u64) * (nb as u64) > (MAX_ENTRIES as u64),
                        na <= MAX_ENTRIES && nb <= MAX_ENTRIES,
                ;
            }
            return Err(QuantumError::CapacityExceeded);
        }
        let mut out: Vec<Entry> = Vec::new();
        let mut ka: usize = 0;
        while ka < na
            invariant
                0 <= ka <= na,
                na == sa.len(),
                nb == sb.len(),
                sa == self.entries@,
                sb == other.entries@,
                ma == self.state(),
                mb == other.state(),
                self.inv(),
                other.inv(),
                wa == self.bits,
                wb == other.bits,
                wa + wb <= MAX_WIDTH,
                (na as int) * (nb as int) <= MAX_ENTRIES,
                out@.len() <= (ka as int) * (nb as int),
                uniq(out@),
                forall|k1: int| 0 <= k1 < out@.len() ==> entry_ok(
                    #[trigger] out@[k1],
                    (wa + wb) as usize,
                ),
                forall|k1: int| 0 <= k1 < out@.len() ==> idx_in(
                    sa,
                    ka as int,
                    (#[trigger] out@[k1]).idx >> (wb as u64),
                ),
                forall|j: u64| idx_in(sa, ka as int, j >> (wb as u64)) ==> #[trigger] amp_of(
                    out@,
                    j,
                ) == tensor_val(ma, mb, wb, j),
                forall|j: u64| !idx_in(sa, ka as int, j >> (wb as u64)) ==> #[trigger] amp_of(
                    out@,
                    j,
                ) == (0int, 0int),
            decreases na - ka,
        {
            let ea = self.entries[ka];
            proof {
                if idx_in(sa, ka as int, ea.idx) {
                    let kx = choose|kx: int| 0 <= kx < ka && (#[trigger] sa[kx]).idx == ea.idx;
                    assert(sa[kx].idx == sa[ka as int].idx);
                    assert(false);
                }
                crate::store::lemma_amp_of_entry(sa, ka as int);
            }
            let mut kb: usize = 0;
            while kb < nb
                invariant
                    0 <= kb <= nb,
                    0 <= ka < na,
                    na == sa.len(),
                    nb == sb.len(),
                    sa == self.entries@,
                    sb == other.entries@,
                    ma == self.state(),
                    mb == other.state(),
                    self.inv(),
                    other.inv(),
                    wa == self.bits,
                    wb == other.bits,
                    wa + wb <= MAX_WIDTH,
                    (na as int) * (nb as int) <= MAX_ENTRIES,
                    ea == sa[ka as int],
                    !idx_in(sa, ka as int, ea.idx),
                    amp_of(sa, ea.idx) == amp(ea),
                    out@.len() <= (ka as int) * (nb as int) + kb,
                    uniq(out@),
                    forall|k1: int| 0 <= k1 < out@.len() ==> entry_ok(
                        #[trigger] out@[k1],
                        (wa + wb) as usize,
                    ),
                    forall|k1: int| 0 <= k1 < out@.len() ==> (idx_in(
                        sa,
                        ka as int,
                        (#[trigger] out@[k1]).idx >> (wb as u64),
                    ) || (out@[k1].idx >> (wb as u64) == ea.idx && idx_in(
                        sb,
                        kb as int,
                        out@[k1].idx & mask_bits(wb),
                    ))),
                    forall|j: u64| idx_in(sa, ka as int, j >> (wb as u64)) ==> #[trigger] amp_of(
                        out@,
                        j,
                    ) == tensor_val(ma, mb, wb, j),
                    forall|j: u64| (j >> (wb as u64) == ea.idx && idx_in(
                        sb,
                        kb as int,
                        j & mask_bits(wb),
                    )) ==> #[trigger] amp_of(out@, j) == tensor_val(ma, mb, wb, j),
                    forall|j: u64| (!idx_in(sa, ka as int, j >> (wb as u64)) && !(j >> (wb as u64)
                        == ea.idx && idx_in(sb, kb as int, j & mask_bits(wb)))) ==> #[trigger] amp_of(
                        out@,
                        j,
                    ) == (0int, 0int),
                decreases nb - kb,
            {
                let eb = other.entries[kb];
                let ghost out_old = out@;
                proof {
                    if idx_in(sb, kb as int, eb.idx) {
                        let kx = choose|kx: int| 0 <= kx < kb && (#[trigger] sb[kx]).idx == eb.idx;
                        assert(sb[kx].idx == sb[kb as int].idx);
                        assert(false);
                    }
                    crate::store::lemma_amp_of_entry(sb, kb as int);
                }
                let eai = ea.idx;
                let ebi = eb.idx;
                let jn = (eai << (wb as u64)) | ebi;
                proof {
                    let w1 = wa;
                    let w2 = wb;
                    assert(jn >> (w2 as u64) == eai && jn & ((((1u64 << (w2 as u64)) - 1) as u64))
                        == ebi && jn < (1u64 << ((w1 + w2) as u64))) by (bit_vector)
                        requires
                            jn == (eai << (w2 as u64)) | ebi,
                            eai < (1u64 << (w1 as u64)),
                            ebi < (1u64 << (w2 as u64)),
                            w1 + w2 <= 62usize,
                    ;
                }
                let lim = AMP_LIMIT as i128;
                let ar = ea.re as i128;
                let ai = ea.im as i128;
                let br = eb.re as i128;
                let bi = eb.im as i128;
                proof {
                    let l = AMP_LIMIT as int;
                    crate::gauss::lemma_mul_bound(ea.re as int, eb.re as int, l, l);
                    crate::gauss::lemma_mul_bound(ea.re as int, eb.im as int, l, l);
                    crate::gauss::lemma_mul_bound(ea.im as int, eb.re as int, l, l);
                    crate::gauss::lemma_mul_bound(ea.im as int, eb.im as int, l, l);
                }
                let pr = ar * br - ai * bi;
                let pi = ar * bi + ai * br;
                proof {
                    assert((pr as int, pi as int) == cmul(amp(ea), amp(eb)));
                    assert(tensor_val(ma, mb, wb, jn) == cmul(amp(ea), amp(eb)));
                }
                if pr > lim || pr < -lim || pi > lim || pi < -lim {
                    proof {
                        assert(!in_amp_range(tensor_val(ma, mb, wb, jn)));
                    }
                    return Err(QuantumError::AmplitudeOverflow);
                }
                let en = Entry { idx: jn, re: pr as i64, im: pi as i64 };
                proof {
                    crate::gauss::lemma_cmul_nonzero(amp(ea), amp(eb));
                    // The fresh index is new to `out`.
                    assert forall|k1: int| 0 <= k1 < out_old.len() implies #[trigger] out_old[k1].idx
                        != jn by {
                        if out_old[k1].idx == jn {
                            if idx_in(sa, ka as int, jn >> (wb as u64)) {
                                assert(false);
                            } else {
                                assert(idx_in(sb, kb as int, jn & mask_bits(wb)));
                                assert(false);
                            }
                        }
                    }
                    assert((ka as int) * (nb as int) + kb + 1 <= (ka as int + 1) * (nb as int))
                        by (nonlinear_arith)
                        requires
                            kb + 1 <= nb,
                    ;
                    assert((ka as int + 1) * (nb as int) <= (na as int) * (nb as int))
                        by (nonlinear_arith)
                        requires
                            ka + 1 <= na,
                            0 <= nb,
                    ;
                }
                out.push(en);
                proof {
                    assert forall|j: u64| #[trigger] amp_of(out@, j) == (if j == jn {
                        amp(en)
                    } else {
                        amp_of(out_old, j)
                    }) by {
                        crate::store::lemma_amp_of_push(out_old, en, j);
                    }
                    assert forall|j: u64| (j >> (wb as u64) == ea.idx && idx_in(
                        sb,
                        kb as int + 1,
                        j & mask_bits(wb),
                    )) implies #[trigger] amp_of(out@, j) == tensor_val(ma, mb, wb, j) by {
                        let w2 = wb;
                        assert(j == ((j >> (w2 as u64)) << (w2 as u64)) | (j & ((((1u64 << (
                        w2 as u64)) - 1) as u64)))) by (bit_vector);
                        if j & mask_bits(wb) == ebi {
                            assert(j == jn);
                        } else {
                            assert(idx_in(sb, kb as int, j & mask_bits(wb)));
                        }
                    }
                }
                kb += 1;
            }
            proof {
                // Close out the row: every pair with this high index is now
                // accounted for, present in `other`'s store or not.
                assert forall|j: u64| idx_in(sa, ka as int + 1, j >> (wb as u64)) implies
                    #[trigger] amp_of(out@, j) == tensor_val(ma, mb, wb, j) by {
                    if idx_in(sa, ka as int, j >> (wb as u64)) {
                    } else {
                        let kx = choose|kx: int|
                            0 <= kx < ka as int + 1 && (#[trigger] sa[kx]).idx == j >> (wb as u64);
                        assert(kx == ka as int);
                        crate::store::lemma_contains_iff(sb, j & mask_bits(wb));
                        if contains_idx(sb, j & mask_bits(wb)) {
                            let kx2 = choose|kx2: int|
                                0 <= kx2 < sb.len() && sb[kx2].idx == j & mask_bits(wb);
                            assert(idx_in(sb, nb as int, j & mask_bits(wb)));
                        } else {
                            crate::store::lemma_amp_of_absent(sb, j & mask_bits(wb));
                            assert(amp_of(out@, j) == (0int, 0int));
                        }
                    }
                }
                assert forall|j: u64| !idx_in(sa, ka as int + 1, j >> (wb as u64)) implies
                    #[trigger] amp_of(out@, j) == (0int, 0int) by {
                    if idx_in(sa, ka as int, j >> (wb as u64)) {
                        let kx = choose|kx: int|
                            0 <= kx < ka && (#[trigger] sa[kx]).idx == j >> (wb as u64);
                        assert(idx_in(sa, ka as int + 1, j >> (wb as u64)));
                    } else {
                        if j >> (wb as u64) == ea.idx {
                            assert(sa[ka as int].idx == j >> (wb as u64));
                            assert(idx_in(sa, ka as int + 1, j >> (wb as u64)));
                        }
                    }
                }
                assert forall|k1: int| 0 <= k1 < out@.len() implies idx_in(
                    sa,
                    ka as int + 1,
                    (#[trigger] out@[k1]).idx >> (wb as u64),
                ) by {
                    if idx_in(sa, ka as int, out@[k1].idx >> (wb as u64)) {
                        let kx = choose|kx: int|
                            0 <= kx < ka && (#[trigger] sa[kx]).idx == out@[k1].idx >> (wb as u64);
                        assert(idx_in(sa, ka as int + 1, out@[k1].idx >> (wb as u64)));
                    } else {
                        assert(sa[ka as int].idx == out@[k1].idx >> (wb as u64));
                        assert(idx_in(sa, ka as int + 1, out@[k1].idx >> (wb as u64)));
                    }
                }
                assert((ka as int + 1) * (nb as int) == (ka as int) * (nb as int) + (nb as int))
                    by (nonlinear_arith);
            }
            ka += 1;
        }
        proof {
            assert forall|j: u64| #[trigger] amp_of(out@, j) == tensor_val(ma, mb, wb, j) by {
                if idx_in(sa, na as int, j >> (wb as u64)) {
                } else {
                    crate::store::lemma_contains_iff(sa, j >> (wb as u64));
                    if contains_idx(sa, j >> (wb as u64)) {
                        let kx = choose|kx: int|
                            0 <= kx < sa.len() && sa[kx].idx == j >> (wb as u64);
                        assert(idx_in(sa, na as int, j >> (wb as u64)));
                        assert(false);
                    } else {
                        crate::store::lemma_amp_of_absent(sa, j >> (wb as u64));
                        let x = mb[(j & mask_bits(wb))];
                        assert(0int * x.0 == 0 && 0int * x.1 == 0) by (nonlinear_arith);
                        assert(tensor_val(ma, mb, wb, j) == (0int, 0int));
                    }
                }
            }
            // The product of two nonempty stores is nonempty.
            crate::store::lemma_amp_of_entry(sa, 0);
            crate::store::lemma_amp_of_entry(sb, 0);
            crate::gauss::lemma_cmul_nonzero(amp(sa[0]), amp(sb[0]));
            let w1 = wa;
            let w2 = wb;
            let a0 = sa[0].idx;
            let b0 = sb[0].idx;
            let j0 = (a0 << (w2 as u64)) | b0;
            assert(j0 >> (w2 as u64) == a0 && j0 & ((((1u64 << (w2 as u64)) - 1) as u64)) == b0)
                by (bit_vector)
                requires
                    j0 == (a0 << (w2 as u64)) | b0,
                    a0 < (1u64 << (w1 as u64)),
                    b0 < (1u64 << (w2 as u64)),
                    w1 + w2 <= 62usize,
            ;
            assert(amp_of(out@, j0) != (0int, 0int));
            if out@.len() == 0 {
                assert(amp_of(out@, j0) == (0int, 0int));
            }
        }
        let r = QuReg { entries: out, bits: wa + wb, scratch: 0, rng: self.rng ^ other.rng };
        proof {
            assert(r.state() =~= tensor_map(ma, mb, wb));
        }
        Ok(r)
    }
}

/// Two to the `k`.
pub open spec fn pow2(k: nat) -> int
    decreases k,
{
    if k == 0 {
        1
    } else {
        2 * pow2((k - 1) as nat)
    }
}

/// A power of two is positive.
pub proof fn lemma_pow2_pos(k: nat)
    ensures
        pow2(k) >= 1,
    decreases k,
{
    if k > 0 {
        lemma_pow2_pos((k - 1) as nat);
    }
}

/// Powers of two grow with the exponent.
pub proof fn lemma_pow2_mono(a: nat, b: nat)
    requires
        a <= b,
    ensures
        pow2(a) <= pow2(b),
    decreases b,
{
    if a < b {
        lemma_pow2_mono(a, (b - 1) as nat);
        lemma_pow2_pos((b - 1) as nat);
    }
}

/// Every Hadamard step of the Walsh transform over `k` qubits stays
/// within the representable amplitude range.
pub open spec fn walsh_fits(m: Map<u64, (int, int)>, k: usize) -> bool
    decreases k,
{
    if k == 0 {
        true
    } else {
        walsh_fits(m, (k - 1) as usize) && mix_fits(
            walsh_map(m, (k - 1) as usize),
            0u64,
            (k - 1) as usize,
            h_mat(),
        )
    }
}

/// The fits chain of the Walsh transform covers each of its steps.
proof fn lemma_walsh_fits_at(m: Map<u64, (int, int)>, k: usize, i: usize)
    requires
        walsh_fits(m, k),
        i < k,
    ensures
        mix_fits(walsh_map(m, i), 0u64, i, h_mat()),
    decreases k,
{
    if i + 1 < k {
        lemma_walsh_fits_at(m, (k - 1) as usize, i);
    }
}

/// Scaling a bound of the form `pow2(e1) * l` by a factor that raises the
/// exponent keeps the bound.
proof fn lemma_pow2_scale(e1: nat, e2: nat, l: int, len: int, f: int)
    requires
        len <= pow2(e1) * l,
        l >= 0,
        f >= 0,
        f * pow2(e1) == pow2(e2),
    ensures
        f * len <= pow2(e2) * l,
{
    assert(f * len <= f * (pow2(e1) * l)) by (nonlinear_arith)
        requires
            f >= 0,
            len <= pow2(e1) * l,
    ;
    assert(f * (pow2(e1) * l) == (f * pow2(e1)) * l) by (nonlinear_arith);
}

/// A `pow2`-scaled bound below a cap stays below it for smaller exponents.
proof fn lemma_pow2_cap(e1: nat, e2: nat, l: int, x: int, cap: int)
    requires
        x <= pow2(e1) * l,
        e1 <= e2,
        l >= 0,
        pow2(e2) * l <= cap,
    ensures
        x <= cap,
{
    lemma_pow2_mono(e1, e2);
    assert(pow2(e1) * l <= pow2(e2) * l) by (nonlinear_arith)
        requires
            pow2(e1) <= pow2(e2),
            l >= 0,
    ;
}

/// Three doublings of a power of two.
proof fn lemma_pow2_add3(e: nat)
    ensures
        8 * pow2(e) == pow2((e + 3) as nat),
{
    assert(pow2((e + 1) as nat) == 2 * pow2(e));
    assert(pow2((e + 2) as nat) == 2 * pow2((e + 1) as nat));
    assert(pow2((e + 3) as nat) == 2 * pow2((e + 2) as nat));
}

/// One qubit swap as its three controlled-NOT steps.
pub open spec fn swap_step(m: Map<u64, (int, int)>, a: usize, b: usize) -> Map<u64, (int, int)> {
    mix_map(
        mix_map(mix_map(m, (1u64 << (a as u64)), b, x_mat()), (1u64 << (b as u64)), a, x_mat()),
        (1u64 << (a as u64)),
        b,
        x_mat(),
    )
}

/// Each of the three controlled-NOT steps of a qubit swap stays within
/// the representable amplitude range.
pub open spec fn swap_fits(m: Map<u64, (int, int)>, a: usize, b: usize) -> bool {
    &&& mix_fits(m, (1u64 << (a as u64)), b, x_mat())
    &&& mix_fits(
        mix_map(m, (1u64 << (a as u64)), b, x_mat()),
        (1u64 << (b as u64)),
        a,
        x_mat(),
    )
    &&& mix_fits(
        mix_map(mix_map(m, (1u64 << (a as u64)), b, x_mat()), (1u64 << (b as u64)), a, x_mat()),
        (1u64 << (a as u64)),
        b,
        x_mat(),
    )
}

/// The first `n` swaps of the bit-order reversal over `w` qubits: pair
/// `b` with `w - 1 - b` for `b` below `n`.
pub open spec fn rev_swaps(m: Map<u64, (int, int)>, w: usize, n: usize) -> Map<u64, (int, int)>
    decreases n,
{
    if n == 0 {
        m
    } else {
        swap_step(rev_swaps(m, w, (n - 1) as usize), (n - 1) as usize, (w - n) as usize)
    }
}

/// The first `n` controlled phases of the transform column for target
/// `i` over `w` qubits: controls walk down from qubit `w - 1`, each
/// turning by `pi / 2^(control - i)`.
pub open spec fn qft_col(m: Map<u64, (int, int)>, w: usize, i: usize, n: usize) -> Map<
    u64,
    (int, int),
>
    decreases n,
{
    if n == 0 {
        m
    } else {
        diag_map(
            qft_col(m, w, i, (n - 1) as usize),
            ((1u64 << ((w - n) as u64)) | (1u64 << (i as u64))),
            phasor_den(turn_for(w - n - i)),
            phasor_val(turn_for(w - n - i)),
        )
    }
}

/// The first `r` rows of the transform over `w` qubits: rows walk down
/// from qubit `w - 1`; each row applies its column of controlled phases
/// and then a Hadamard gate to its qubit.
pub open spec fn qft_rows(m: Map<u64, (int, int)>, w: usize, r: usize) -> Map<u64, (int, int)>
    decreases r,
{
    if r == 0 {
        m
    } else {
        mix_map(
            qft_col(qft_rows(m, w, (r - 1) as usize), w, (w - r) as usize, (r - 1) as usize),
            0u64,
            (w - r) as usize,
            h_mat(),
        )
    }
}

/// The quantum Fourier transform over the first `w` qubits: the rows of
/// Hadamard and controlled-phase gates, followed by the bit-order
/// reversal.
pub open spec fn qft_map(m: Map<u64, (int, int)>, w: usize) -> Map<u64, (int, int)> {
    rev_swaps(qft_rows(m, w, w), w, (w / 2) as usize)
}

/// Every controlled phase of a transform column stays representable.
pub open spec fn qft_col_fits(m: Map<u64, (int, int)>, w: usize, i: usize, n: usize) -> bool
    decreases n,
{
    if n == 0 {
        true
    } else {
        qft_col_fits(m, w, i, (n - 1) as usize) && diag_fits(
            qft_col(m, w, i, (n - 1) as usize),
            ((1u64 << ((w - n) as u64)) | (1u64 << (i as u64))),
            phasor_den(turn_for(w - n - i)),
            phasor_val(turn_for(w - n - i)),
        )
    }
}

/// Every gate of the transform rows stays representable.
pub open spec fn qft_rows_fits(m: Map<u64, (int, int)>, w: usize, r: usize) -> bool
    decreases r,
{
    if r == 0 {
        true
    } else {
        qft_rows_fits(m, w, (r - 1) as usize) && qft_col_fits(
            qft_rows(m, w, (r - 1) as usize),
            w,
            (w - r) as usize,
            (r - 1) as usize,
        ) && mix_fits(
            qft_col(qft_rows(m, w, (r - 1) as usize), w, (w - r) as usize, (r - 1) as usize),
            0u64,
            (w - r) as usize,
            h_mat(),
        )
    }
}

/// Every controlled-NOT of the bit-order reversal stays representable.
pub open spec fn rev_fits(m: Map<u64, (int, int)>, w: usize, n: usize) -> bool
    decreases n,
{
    if n == 0 {
        true
    } else {
        rev_fits(m, w, (n - 1) as usize) && swap_fits(
            rev_swaps(m, w, (n - 1) as usize),
            (n - 1) as usize,
            (w - n) as usize,
        )
    }
}

/// Every gate of the whole transform stays representable.
pub open spec fn qft_fits(m: Map<u64, (int, int)>, w: usize) -> bool {
    qft_rows_fits(m, w, w) && rev_fits(qft_rows(m, w, w), w, (w / 2) as usize)
}

/// The fits chain of a transform column covers each of its phases.
proof fn lemma_qft_col_fits_at(m: Map<u64, (int, int)>, w: usize, i: usize, n: usize, n1: usize)
    requires
        qft_col_fits(m, w, i, n),
        n1 < n,
    ensures
        diag_fits(
            qft_col(m, w, i, n1),
            ((1u64 << ((w - n1 - 1) as u64)) | (1u64 << (i as u64))),
            phasor_den(turn_for(w - n1 - 1 - i)),
            phasor_val(turn_for(w - n1 - 1 - i)),
        ),
    decreases n,
{
    if n1 + 1 < n {
        lemma_qft_col_fits_at(m, w, i, (n - 1) as usize, n1);
    }
}

/// The fits chain of the transform rows covers each row's column and
/// Hadamard step.
proof fn lemma_qft_rows_fits_at(m: Map<u64, (int, int)>, w: usize, r: usize, r1: usize)
    requires
        qft_rows_fits(m, w, r),
        r1 < r,
    ensures
        qft_col_fits(qft_rows(m, w, r1), w, (w - r1 - 1) as usize, r1),
        mix_fits(
            qft_col(qft_rows(m, w, r1), w, (w - r1 - 1) as usize, r1),
            0u64,
            (w - r1 - 1) as usize,
            h_mat(),
        ),
    decreases r,
{
    if r1 + 1 < r {
        lemma_qft_rows_fits_at(m, w, (r - 1) as usize, r1);
    }
}

/// The fits chain of the reversal covers each swap.
proof fn lemma_rev_fits_at(m: Map<u64, (int, int)>, w: usize, n: usize, b: usize)
    requires
        rev_fits(m, w, n),
        b < n,
    ensures
        swap_fits(rev_swaps(m, w, b), b, (w - b - 1) as usize),
    decreases n,
{
    if b + 1 < n {
        lemma_rev_fits_at(m, w, (n - 1) as usize, b);
    }
}

/// The first `n` conjugate controlled phases of the inverse-transform
/// column for target `i`: controls walk up from qubit `i + 1`.
pub open spec fn qft_inv_col(m: Map<u64, (int, int)>, w: usize, i: usize, n: usize) -> Map<
    u64,
    (int, int),
>
    decreases n,
{
    if n == 0 {
        m
    } else {
        diag_map(
            qft_inv_col(m, w, i, (n - 1) as usize),
            ((1u64 << ((i + n) as u64)) | (1u64 << (i as u64))),
            phasor_den(turn_for(n as int)),
            phasor_conj(turn_for(n as int)),
        )
    }
}

/// The first `r` rows of the inverse transform: rows walk up from qubit
/// zero; each row applies a Hadamard gate and then its column of
/// conjugate controlled phases.
pub open spec fn qft_inv_rows(m: Map<u64, (int, int)>, w: usize, r: usize) -> Map<u64, (int, int)>
    decreases r,
{
    if r == 0 {
        m
    } else {
        qft_inv_col(
            mix_map(qft_inv_rows(m, w, (r - 1) as usize), 0u64, (r - 1) as usize, h_mat()),
            w,
            (r - 1) as usize,
            (w - r) as usize,
        )
    }
}

/// The inverse quantum Fourier transform over the first `w` qubits: the
/// bit-order reversal, then the rows in the opposite order with the
/// opposite phase angles.
pub open spec fn qft_inv_map(m: Map<u64, (int, int)>, w: usize) -> Map<u64, (int, int)> {
    qft_inv_rows(rev_swaps(m, w, (w / 2) as usize), w, w)
}

/// Every conjugate phase of an inverse-transform column stays
/// representable.
pub open spec fn qft_inv_col_fits(m: Map<u64, (int, int)>, w: usize, i: usize, n: usize) -> bool
    decreases n,
{
    if n == 0 {
        true
    } else {
        qft_inv_col_fits(m, w, i, (n - 1) as usize) && diag_fits(
            qft_inv_col(m, w, i, (n - 1) as usize),
            ((1u64 << ((i + n) as u64)) | (1u64 << (i as u64))),
            phasor_den(turn_for(n as int)),
            phasor_conj(turn_for(n as int)),
        )
    }
}

/// Every gate of the inverse-transform rows stays representable.
pub open spec fn qft_inv_rows_fits(m: Map<u64, (int, int)>, w: usize, r: usize) -> bool
    decreases r,
{
    if r == 0 {
        true
    } else {
        qft_inv_rows_fits(m, w, (r - 1) as usize) && mix_fits(
            qft_inv_rows(m, w, (r - 1) as usize),
            0u64,
            (r - 1) as usize,
            h_mat(),
        ) && qft_inv_col_fits(
            mix_map(qft_inv_rows(m, w, (r - 1) as usize), 0u64, (r - 1) as usize, h_mat()),
            w,
            (r - 1) as usize,
            (w - r) as usize,
        )
    }
}

/// Every gate of the whole inverse transform stays representable.
pub open spec fn qft_inv_fits(m: Map<u64, (int, int)>, w: usize) -> bool {
    rev_fits(m, w, (w / 2) as usize) && qft_inv_rows_fits(
        rev_swaps(m, w, (w / 2) as usize),
        w,
        w,
    )
}

/// The fits chain of an inverse-transform column covers each phase.
proof fn lemma_qft_inv_col_fits_at(
    m: Map<u64, (int, int)>,
    w: usize,
    i: usize,
    n: usize,
    n1: usize,
)
    requires
        qft_inv_col_fits(m, w, i, n),
        n1 < n,
    ensures
        diag_fits(
            qft_inv_col(m, w, i, n1),
            ((1u64 << ((i + n1 + 1) as u64)) | (1u64 << (i as u64))),
            phasor_den(turn_for((n1 + 1) as int)),
            phasor_conj(turn_for((n1 + 1) as int)),
        ),
    decreases n,
{
    if n1 + 1 < n {
        lemma_qft_inv_col_fits_at(m, w, i, (n - 1) as usize, n1);
    }
}

/// The fits chain of the inverse-transform rows covers each row's
/// Hadamard and column.
proof fn lemma_qft_inv_rows_fits_at(m: Map<u64, (int, int)>, w: usize, r: usize, r1: usize)
    requires
        qft_inv_rows_fits(m, w, r),
        r1 < r,
    ensures
        mix_fits(qft_inv_rows(m, w, r1), 0u64, r1, h_mat()),
        qft_inv_col_fits(
            mix_map(qft_inv_rows(m, w, r1), 0u64, r1, h_mat()),
            w,
            r1,
            (w - r1 - 1) as usize,
        ),
    decreases r,
{
    if r1 + 1 < r {
        lemma_qft_inv_rows_fits_at(m, w, (r - 1) as usize, r1);
    }
}

impl QuReg {
    /// Swaps two distinct qubits by three controlled-NOT gates.
    fn swap_qubits(&mut self, a: usize, b: usize) -> (r: Result<(), QuantumError>)
        requires
            old(self).inv(),
            a < old(self).bits,
            b < old(self).bits,
            a != b,
        ensures
            final(self).inv(),
            final(self).bits == old(self).bits,
            final(self).scratch == old(self).scratch,
            final(self).rng == old(self).rng,
            r is Ok ==> final(self).state() == swap_step(old(self).state(), a, b),
            r is Ok ==> final(self).entries@.len() <= 8 * old(self).entries@.len(),
            r != Err::<(), QuantumError>(QuantumError::IndexOutOfRange),
            (swap_fits(old(self).state(), a, b) && 8 * old(self).entries@.len() <= MAX_ENTRIES)
                ==> r is Ok,
    {
        match self.cnot(a, b) {
            Ok(_) => {},
            Err(e) => {
                return Err(e);
            },
        }
        match self.cnot(b, a) {
            Ok(_) => {},
            Err(e) => {
                return Err(e);
            },
        }
        match self.cnot(a, b) {
            Ok(_) => {},
            Err(e) => {
                return Err(e);
            },
        }
        Ok(())
    }

    /// Applies the quantum Fourier transform to the first `width` qubits:
    /// for each qubit from the top down, the controlled phases from every
    /// higher qubit and a Hadamard gate, then the bit-order reversal.  The
    /// controlled phases come from the built-in table of exact rational
    /// circle points, so angles `pi / 2^k` beyond its resolution round to
    /// the identity; the inverse transform conjugates the same table, so
    /// round trips cancel exactly.
    pub fn qft(&mut self, width: usize) -> (r: Result<(), QuantumError>)
        requires
            old(self).inv(),
        ensures
            final(self).inv(),
            final(self).bits == old(self).bits,
            final(self).scratch == old(self).scratch,
            final(self).rng == old(self).rng,
            r is Err ==> final(self).entries@ == old(self).entries@,
            r == Err::<(), QuantumError>(QuantumError::IndexOutOfRange) <==> width > old(
                self,
            ).bits,
            r is Ok ==> final(self).state() == qft_map(old(self).state(), width),
            (width <= old(self).bits && qft_fits(old(self).state(), width) && pow2(
                (width + 3 * (width / 2)) as nat,
            ) * old(self).entries@.len() <= MAX_ENTRIES) ==> r is Ok,
    {
        if width > self.bits {
            return Err(QuantumError::IndexOutOfRange);
        }
        let ghost m0 = self.state();
        let saved = clone_entries(&self.entries);
        let ghost saved0 = *self;
        let mut i: usize = width;
        while i > 0
            invariant
                0 <= i <= width,
                width <= self.bits,
                self.inv(),
                self.bits == saved0.bits,
                self.scratch == saved0.scratch,
                self.rng == saved0.rng,
                saved@ == saved0.entries@,
                saved0.inv(),
                saved0.bits == old(self).bits,
                saved0.scratch == old(self).scratch,
                saved0.rng == old(self).rng,
                saved0.entries@ == old(self).entries@,
                m0 == saved0.state(),
                self.state() == qft_rows(m0, width, (width - i) as usize),
                self.entries@.len() <= pow2((width - i) as nat) * saved0.entries@.len(),
            decreases i,
        {
            i = i - 1;
            let ghost row_start = self.state();
            let mut j: usize = width;
            while j > i + 1
                invariant
                    i + 1 <= j <= width,
                    i < width <= self.bits,
                    self.inv(),
                    self.bits == saved0.bits,
                    self.scratch == saved0.scratch,
                    self.rng == saved0.rng,
                    saved@ == saved0.entries@,
                    saved0.inv(),
                    saved0.bits == old(self).bits,
                    saved0.scratch == old(self).scratch,
                    saved0.rng == old(self).rng,
                    saved0.entries@ == old(self).entries@,
                    m0 == saved0.state(),
                    row_start == qft_rows(m0, width, (width - i - 1) as usize),
                    self.state() == qft_col(row_start, width, i, (width - j) as usize),
                    self.entries@.len() <= pow2((width - i - 1) as nat) * saved0.entries@.len(),
                decreases j,
            {
                j = j - 1;
                match self.cond_phase(j, i) {
                    Ok(_) => {},
                    Err(e) => {
                        proof {
                            if qft_fits(m0, width) && pow2((width + 3 * (width / 2)) as nat)
                                * saved0.entries@.len() <= MAX_ENTRIES {
                                lemma_qft_rows_fits_at(m0, width, width, (width - i - 1) as usize);
                                lemma_qft_col_fits_at(
                                    qft_rows(m0, width, (width - i - 1) as usize),
                                    width,
                                    i,
                                    (width - i - 1) as usize,
                                    (width - j - 1) as usize,
                                );
                                assert(qubit_dist(j, i) == j - i);
                                assert(false);
                            }
                        }
                        self.entries = saved;
                        return Err(e);
                    },
                }
                proof {
                    assert(qubit_dist(j, i) == j - i);
                    assert(qft_col(row_start, width, i, (width - j) as usize) == diag_map(
                        qft_col(row_start, width, i, (width - j - 1) as usize),
                        ((1u64 << (j as u64)) | (1u64 << (i as u64))),
                        phasor_den(turn_for(j - i)),
                        phasor_val(turn_for(j - i)),
                    ));
                }
            }
            let ghost len_i = self.entries@.len();
            match self.hadamard(i) {
                Ok(_) => {},
                Err(e) => {
                    proof {
                        if qft_fits(m0, width) && pow2((width + 3 * (width / 2)) as nat)
                            * saved0.entries@.len() <= MAX_ENTRIES {
                            lemma_qft_rows_fits_at(m0, width, width, (width - i - 1) as usize);
                            let l0 = saved0.entries@.len() as int;
                            assert(pow2((width - i) as nat) == 2 * pow2((width - i - 1) as nat));
                            lemma_pow2_scale(
                                (width - i - 1) as nat,
                                (width - i) as nat,
                                l0,
                                len_i as int,
                                2,
                            );
                            lemma_pow2_cap(
                                (width - i) as nat,
                                (width + 3 * (width / 2)) as nat,
                                l0,
                                2 * (len_i as int),
                                MAX_ENTRIES as int,
                            );
                            assert(false);
                        }
                    }
                    self.entries = saved;
                    return Err(e);
                },
            }
            proof {
                assert(qft_rows(m0, width, (width - i) as usize) == mix_map(
                    qft_col(qft_rows(m0, width, (width - i - 1) as usize), width, i, (width - i
                        - 1) as usize),
                    0u64,
                    i,
                    h_mat(),
                ));
                let l0 = saved0.entries@.len() as int;
                assert(pow2((width - i) as nat) == 2 * pow2((width - i - 1) as nat));
                lemma_pow2_scale(
                    (width - i - 1) as nat,
                    (width - i) as nat,
                    l0,
                    len_i as int,
                    2,
                );
            }
        }
        let mut b: usize = 0;
        let ghost mid = self.state();
        while b < width / 2
            invariant
                0 <= b <= width / 2,
                width <= self.bits,
                self.inv(),
                self.bits == saved0.bits,
                self.scratch == saved0.scratch,
                self.rng == saved0.rng,
                saved@ == saved0.entries@,
                saved0.inv(),
                saved0.bits == old(self).bits,
                saved0.scratch == old(self).scratch,
                saved0.rng == old(self).rng,
                saved0.entries@ == old(self).entries@,
                self.state() == rev_swaps(mid, width, b),
                mid == qft_rows(m0, width, width),
                m0 == saved0.state(),
                self.entries@.len() <= pow2((width + 3 * b) as nat) * saved0.entries@.len(),
            decreases width / 2 - b,
        {
            let ghost len_b = self.entries@.len();
            match self.swap_qubits(b, width - 1 - b) {
                Ok(_) => {},
                Err(e) => {
                    proof {
                        if qft_fits(m0, width) && pow2((width + 3 * (width / 2)) as nat)
                            * saved0.entries@.len() <= MAX_ENTRIES {
                            lemma_rev_fits_at(mid, width, (width / 2) as usize, b);
                            let l0 = saved0.entries@.len() as int;
                            lemma_pow2_add3((width + 3 * b) as nat);
                            lemma_pow2_scale(
                                (width + 3 * b) as nat,
                                (width + 3 * b + 3) as nat,
                                l0,
                                len_b as int,
                                8,
                            );
                            lemma_pow2_cap(
                                (width + 3 * b + 3) as nat,
                                (width + 3 * (width / 2)) as nat,
                                l0,
                                8 * (len_b as int),
                                MAX_ENTRIES as int,
                            );
                            assert(false);
                        }
                    }
                    self.entries = saved;
                    return Err(e);
                },
            }
            proof {
                let l0 = saved0.entries@.len() as int;
                lemma_pow2_add3((width + 3 * b) as nat);
                lemma_pow2_scale(
                    (width + 3 * b) as nat,
                    (width + 3 * b + 3) as nat,
                    l0,
                    len_b as int,
                    8,
                );
            }
            b = b + 1;
            proof {
                assert(rev_swaps(mid, width, b) == swap_step(
                    rev_swaps(mid, width, (b - 1) as usize),
                    (b - 1) as usize,
                    (width - b) as usize,
                ));
            }
        }
        Ok(())
    }

    /// Applies the inverse quantum Fourier transform to the first `width`
    /// qubits: the bit-order reversal, then for each qubit from the bottom
    /// up a Hadamard gate and the conjugate controlled phases from every
    /// higher qubit.
    pub fn qft_inv(&mut self, width: usize) -> (r: Result<(), QuantumError>)
        requires
            old(self).inv(),
        ensures
            final(self).inv(),
            final(self).bits == old(self).bits,
            final(self).scratch == old(self).scratch,
            final(self).rng == old(self).rng,
            r is Err ==> final(self).entries@ == old(self).entries@,
            r == Err::<(), QuantumError>(QuantumError::IndexOutOfRange) <==> width > old(
                self,
            ).bits,
            r is Ok ==> final(self).state() == qft_inv_map(old(self).state(), width),
            (width <= old(self).bits && qft_inv_fits(old(self).state(), width) && pow2(
                (width + 3 * (width / 2)) as nat,
            ) * old(self).entries@.len() <= MAX_ENTRIES) ==> r is Ok,
    {
        if width > self.bits {
            return Err(QuantumError::IndexOutOfRange);
        }
        let ghost m0 = self.state();
        let saved = clone_entries(&self.entries);
        let ghost saved0 = *self;
        let mut b: usize = 0;
        while b < width / 2
            invariant
                0 <= b <= width / 2,
                width <= self.bits,
                self.inv(),
                self.bits == saved0.bits,
                self.scratch == saved0.scratch,
                self.rng == saved0.rng,
                saved@ == saved0.entries@,
                saved0.inv(),
                saved0.bits == old(self).bits,
                saved0.scratch == old(self).scratch,
                saved0.rng == old(self).rng,
                saved0.entries@ == old(self).entries@,
                m0 == saved0.state(),
                self.state() == rev_swaps(m0, width, b),
                self.entries@.len() <= pow2((3 * b) as nat) * saved0.entries@.len(),
            decreases width / 2 - b,
        {
            let ghost len_b = self.entries@.len();
            match self.swap_qubits(b, width - 1 - b) {
                Ok(_) => {},
                Err(e) => {
                    proof {
                        if qft_inv_fits(m0, width) && pow2((width + 3 * (width / 2)) as nat)
                            * saved0.entries@.len() <= MAX_ENTRIES {
                            lemma_rev_fits_at(m0, width, (width / 2) as usize, b);
                            let l0 = saved0.entries@.len() as int;
                            lemma_pow2_add3((3 * b) as nat);
                            lemma_pow2_scale(
                                (3 * b) as nat,
                                (3 * b + 3) as nat,
                                l0,
                                len_b as int,
                                8,
                            );
                            lemma_pow2_cap(
                                (3 * b + 3) as nat,
                                (width + 3 * (width / 2)) as nat,
                                l0,
                                8 * (len_b as int),
                                MAX_ENTRIES as int,
                            );
                            assert(false);
                        }
                    }
                    self.entries = saved;
                    return Err(e);
                },
            }
            proof {
                let l0 = saved0.entries@.len() as int;
                lemma_pow2_add3((3 * b) as nat);
                lemma_pow2_scale((3 * b) as nat, (3 * b + 3) as nat, l0, len_b as int, 8);
            }
            b = b + 1;
            proof {
                assert(rev_swaps(m0, width, b) == swap_step(
                    rev_swaps(m0, width, (b - 1) as usize),
                    (b - 1) as usize,
                    (width - b) as usize,
                ));
            }
        }
        let ghost mid = self.state();
        let mut i: usize = 0;
        while i < width
            invariant
                0 <= i <= width,
                width <= self.bits,
                self.inv(),
                self.bits == saved0.bits,
                self.scratch == saved0.scratch,
                self.rng == saved0.rng,
                saved@ == saved0.entries@,
                saved0.inv(),
                saved0.bits == old(self).bits,
                saved0.scratch == old(self).scratch,
                saved0.rng == old(self).rng,
                saved0.entries@ == old(self).entries@,
                m0 == saved0.state(),
                mid == rev_swaps(m0, width, (width / 2) as usize),
                self.state() == qft_inv_rows(mid, width, i),
                self.entries@.len() <= pow2((3 * (width / 2) + i) as nat) * saved0.entries@.len(),
            decreases width - i,
        {
            let ghost len_i = self.entries@.len();
            match self.hadamard(i) {
                Ok(_) => {},
                Err(e) => {
                    proof {
                        if qft_inv_fits(m0, width) && pow2((width + 3 * (width / 2)) as nat)
                            * saved0.entries@.len() <= MAX_ENTRIES {
                            lemma_qft_inv_rows_fits_at(mid, width, width, i);
                            let l0 = saved0.entries@.len() as int;
                            assert(pow2((3 * (width / 2) + i + 1) as nat) == 2 * pow2(
                                (3 * (width / 2) + i) as nat,
                            ));
                            lemma_pow2_scale(
                                (3 * (width / 2) + i) as nat,
                                (3 * (width / 2) + i + 1) as nat,
                                l0,
                                len_i as int,
                                2,
                            );
                            lemma_pow2_cap(
                                (3 * (width / 2) + i + 1) as nat,
                                (width + 3 * (width / 2)) as nat,
                                l0,
                                2 * (len_i as int),
                                MAX_ENTRIES as int,
                            );
                            assert(false);
                        }
                    }
                    self.entries = saved;
                    return Err(e);
                },
            }
            proof {
                let l0 = saved0.entries@.len() as int;
                assert(pow2((3 * (width / 2) + i + 1) as nat) == 2 * pow2(
                    (3 * (width / 2) + i) as nat,
                ));
                lemma_pow2_scale(
                    (3 * (width / 2) + i) as nat,
                    (3 * (width / 2) + i + 1) as nat,
                    l0,
                    len_i as int,
                    2,
                );
            }
            let ghost row_start = self.state();
            let mut j: usize = i + 1;
            while j < width
                invariant
                    i + 1 <= j <= width,
                    i < width <= self.bits,
                    self.inv(),
                    self.bits == saved0.bits,
                    self.scratch == saved0.scratch,
                    self.rng == saved0.rng,
                    saved@ == saved0.entries@,
                    saved0.inv(),
                    saved0.bits == old(self).bits,
                    saved0.scratch == old(self).scratch,
                    saved0.rng == old(self).rng,
                    saved0.entries@ == old(self).entries@,
                    m0 == saved0.state(),
                    mid == rev_swaps(m0, width, (width / 2) as usize),
                    row_start == mix_map(qft_inv_rows(mid, width, i), 0u64, i, h_mat()),
                    self.state() == qft_inv_col(row_start, width, i, (j - i - 1) as usize),
                    self.entries@.len() <= pow2((3 * (width / 2) + i + 1) as nat)
                        * saved0.entries@.len(),
                decreases width - j,
            {
                let ph = turn_table(j - i);
                let phc = ph.conj();
                match self.cond_phaseby(j, i, &phc) {
                    Ok(_) => {},
                    Err(e) => {
                        proof {
                            if qft_inv_fits(m0, width) && pow2((width + 3 * (width / 2)) as nat)
                                * saved0.entries@.len() <= MAX_ENTRIES {
                                lemma_qft_inv_rows_fits_at(mid, width, width, i);
                                lemma_qft_inv_col_fits_at(
                                    row_start,
                                    width,
                                    i,
                                    (width - i - 1) as usize,
                                    (j - i - 1) as usize,
                                );
                                assert(phasor_val(phc) == phasor_conj(turn_for((j - i) as int)));
                                assert(phasor_den(phc) == phasor_den(turn_for((j - i) as int)));
                                assert(false);
                            }
                        }
                        self.entries = saved;
                        return Err(e);
                    },
                }
                proof {
                    assert(qft_inv_col(row_start, width, i, (j - i) as usize) == diag_map(
                        qft_inv_col(row_start, width, i, (j - i - 1) as usize),
                        ((1u64 << (j as u64)) | (1u64 << (i as u64))),
                        phasor_den(turn_for((j - i) as int)),
                        phasor_conj(turn_for((j - i) as int)),
                    ));
                    assert(phasor_val(phc) == phasor_conj(turn_for((j - i) as int)));
                    assert(phasor_den(phc) == phasor_den(turn_for((j - i) as int)));
                }
                j = j + 1;
            }
            i = i + 1;
            proof {
                assert(qft_inv_rows(mid, width, i) == qft_inv_col(
                    mix_map(qft_inv_rows(mid, width, (i - 1) as usize), 0u64, (i - 1) as usize,
                    h_mat()),
                    width,
                    (i - 1) as usize,
                    (width - i) as usize,
                ));
            }
        }
        Ok(())
    }
}

/// A register certain of its classical value carries no probability mass
/// on the disagreeing outcome of any qubit, so measuring qubit `pos` of a
/// classical register returns exactly bit `pos` of its value: combined
/// with the measurement functions' mass clauses, every measurement of a
/// classical register is deterministic.
pub proof fn lemma_certain_bit(q: QuReg, b: u64, pos: usize)
    requires
        q.inv(),
        q.certainly(b),
    ensures
        mass_cond(
            q.entries@,
            (1u64 << (pos as u64)),
            !((b & (1u64 << (pos as u64))) == (1u64 << (pos as u64))),
        ) == 0,
{
    let s = q.entries@;
    let tm = 1u64 << (pos as u64);
    assert forall|k: int| 0 <= k < s.len() implies (#[trigger] s[k]).idx == b by {
        crate::store::lemma_amp_of_entry(s, k);
        assert(amp_of(s, s[k].idx) != (0int, 0int));
    }
    crate::store::lemma_mass_cond_none(s, tm, !((b & tm) == tm));
}

/// No control bits at all: the zero mask is disjoint from any target bit.
proof fn lemma_zero_mask(t: usize)
    by (bit_vector)
    ensures
        0u64 & (1u64 << (t as u64)) == 0u64,
{
}

/// The built-in table of phase turns: the exact rational circle point
/// standing for the angle `pi / 2^k`.
fn turn_table(k: usize) -> (r: Phasor)
    ensures
        r == turn_for(k as int),
        phasor_ok(r),
{
    if k <= 1 {
        Phasor { re: 0, im: 1, den: 1 }
    } else if k == 2 {
        Phasor { re: 697, im: 696, den: 985 }
    } else if k == 3 {
        Phasor { re: 12, im: 5, den: 13 }
    } else if k == 4 {
        Phasor { re: 4992, im: 994, den: 5090 }
    } else if k == 5 {
        Phasor { re: 3712, im: 366, den: 3730 }
    } else if k == 6 {
        Phasor { re: 14875, im: 732, den: 14893 }
    } else if k == 7 {
        Phasor { re: 26565, im: 652, den: 26573 }
    } else if k == 8 {
        Phasor { re: 26568, im: 326, den: 26570 }
    } else {
        Phasor { re: 1, im: 0, den: 1 }
    }
}

} // verus!
