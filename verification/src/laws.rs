//! General laws of the register algebra, stated over state maps.

use vstd::prelude::*;

use crate::gauss::cadd;
use crate::gauss::cmul;
use crate::gauss::csub;
use crate::gauss::sq;
use crate::gauss::lemma_cmul_assoc;
use crate::qureg::QuReg;
use crate::qureg::h_mat;
use crate::qureg::pow2;
use crate::qureg::mix_map;
use crate::qureg::walsh_map;
use crate::qureg::tensor_map;
use crate::qureg::mask_bits;

verus! {

/// Applying the Hadamard gate twice to the same qubit scales every
/// amplitude by two: the state returns to the original up to a global
/// scale, so the same measurement statistics, and a classical state
/// returns to its classical value.
pub proof fn lemma_hadamard_twice(m: Map<u64, (int, int)>, t: usize)
    requires
        t < 62,
    ensures
        forall|j: u64| #[trigger] mix_map(mix_map(m, 0u64, t, h_mat()), 0u64, t, h_mat())[j]
            == cmul((2int, 0int), m[j]),
        forall|j: u64| (#[trigger] mix_map(mix_map(m, 0u64, t, h_mat()), 0u64, t, h_mat())[j] == (
        0int, 0int)) <==> m[j] == (0int, 0int),
{
    let m1 = mix_map(m, 0u64, t, h_mat());
    let tm = 1u64 << (t as u64);
    assert forall|j: u64| #[trigger] mix_map(m1, 0u64, t, h_mat())[j] == cmul((2int, 0int), m[j]) by {
        assert(j & 0u64 == 0u64 && (j | tm) & 0u64 == 0u64 && (j & !tm) & 0u64 == 0u64 && ((j & !tm)
            & tm == 0) && ((j | tm) & tm != 0) && (j & !tm) | tm == j | tm && (j | tm) & !tm == j
            & !tm && ((j & tm == 0) ==> (j & !tm == j && j | tm != j)) && ((j & tm != 0) ==> (j | tm
            == j && j & !tm != j)) && tm != 0) by (bit_vector)
            requires
                tm == 1u64 << (t as u64),
                t < 62usize,
        ;
        if j & tm == 0 {
            assert(m1[j] == cadd(cmul(h_mat().a, m[j]), cmul(h_mat().b, m[(j | tm)])));
            assert(m1[(j | tm)] == cadd(cmul(h_mat().c, m[j]), cmul(h_mat().d, m[(j | tm)])));
        } else {
            assert(m1[j] == cadd(cmul(h_mat().c, m[(j & !tm)]), cmul(h_mat().d, m[j])));
            assert(m1[(j & !tm)] == cadd(cmul(h_mat().a, m[(j & !tm)]), cmul(h_mat().b, m[j])));
        }
    }
    assert forall|j: u64| (#[trigger] mix_map(m1, 0u64, t, h_mat())[j] == (0int, 0int)) <==> m[j]
        == (0int, 0int) by {
        assert(mix_map(m1, 0u64, t, h_mat())[j] == cmul((2int, 0int), m[j]));
        if m[j] != (0int, 0int) {
            crate::gauss::lemma_cmul_nonzero((2int, 0int), m[j]);
        }
    }
}

/// One basis pair under the Hadamard step: the combined squared magnitude
/// of the two resulting amplitudes is exactly twice the combined squared
/// magnitude before.  This is unitarity, and with the mass kept equal to
/// the sum of squared magnitudes, the total probability stays one.
pub proof fn lemma_hadamard_pair_mass(x: (int, int), y: (int, int))
    ensures
        sq(cadd(x, y)) + sq(csub(x, y)) == 2 * (sq(x) + sq(y)),
{
    let (a, b) = x;
    let (c, d) = y;
    assert((a + c) * (a + c) + (b + d) * (b + d) + (a - c) * (a - c) + (b - d) * (b - d) == 2 * (a
        * a + b * b + c * c + d * d)) by (nonlinear_arith);
}

/// Hadamard gates on distinct qubits commute.
proof fn lemma_h_commute(m: Map<u64, (int, int)>, t1: usize, t2: usize)
    requires
        t1 < 62,
        t2 < 62,
        t1 != t2,
    ensures
        mix_map(mix_map(m, 0u64, t1, h_mat()), 0u64, t2, h_mat()) == mix_map(
            mix_map(m, 0u64, t2, h_mat()),
            0u64,
            t1,
            h_mat(),
        ),
{
    let ma = mix_map(m, 0u64, t1, h_mat());
    let mb = mix_map(m, 0u64, t2, h_mat());
    let u = 1u64 << (t1 as u64);
    let v = 1u64 << (t2 as u64);
    assert forall|j: u64| #[trigger] mix_map(ma, 0u64, t2, h_mat())[j] == mix_map(
        mb,
        0u64,
        t1,
        h_mat(),
    )[j] by {
        assert((j & 0u64 == 0u64) && ((j & !v) & 0u64 == 0u64) && ((j | v) & 0u64 == 0u64) && ((j
            & !u) & 0u64 == 0u64) && ((j | u) & 0u64 == 0u64) && ((j & !v) & u == j & u) && ((j | v)
            & u == j & u) && ((j & !u) & v == j & v) && ((j | u) & v == j & v) && ((j & !v) & !u == (
        j & !u) & !v) && ((j & !v) | u == (j | u) & !v) && ((j & !u) | v == (j | v) & !u) && ((j | v)
            | u == (j | u) | v) && (((j & !v) & u == 0) == (j & u == 0)) && (((j | v) & u == 0) == (
        j & u == 0)) && (((j & !u) & v == 0) == (j & v == 0)) && (((j | u) & v == 0) == (j & v
            == 0)) && (u != 0 && v != 0)) by (bit_vector)
            requires
                u == 1u64 << (t1 as u64),
                v == 1u64 << (t2 as u64),
                t1 < 62usize,
                t2 < 62usize,
                t1 != t2,
        ;
    }
    assert(mix_map(ma, 0u64, t2, h_mat()) =~= mix_map(mb, 0u64, t1, h_mat()));
}

/// A Hadamard gate on a qubit at or above `k` commutes with the Walsh
/// transform over the first `k` qubits.
proof fn lemma_walsh_h_commute(m: Map<u64, (int, int)>, k: usize, t: usize)
    requires
        k <= t < 62,
    ensures
        walsh_map(mix_map(m, 0u64, t, h_mat()), k) == mix_map(walsh_map(m, k), 0u64, t, h_mat()),
    decreases k,
{
    if k == 0 {
    } else {
        let k1 = (k - 1) as usize;
        lemma_walsh_h_commute(m, k1, t);
        lemma_h_commute(walsh_map(m, k1), k1, t);
    }
}

/// The Walsh transform applied twice over the same width scales every
/// amplitude by two to that width: the register returns to its original
/// state up to a global scale, so a classical state measures as before.
pub proof fn lemma_walsh_twice(m: Map<u64, (int, int)>, k: usize)
    requires
        k <= 62,
    ensures
        forall|j: u64| #[trigger] walsh_map(walsh_map(m, k), k)[j] == cmul(
            (pow2(k as nat), 0int),
            m[j],
        ),
    decreases k,
{
    if k == 0 {
        assert forall|j: u64| #[trigger] walsh_map(walsh_map(m, 0), 0)[j] == cmul(
            (pow2(0), 0int),
            m[j],
        ) by {
            let x = m[j];
            assert(1int * x.0 - 0int * x.1 == x.0 && 1int * x.1 + 0int * x.0 == x.1)
                by (nonlinear_arith);
        }
    } else {
        let k1 = (k - 1) as usize;
        let w1 = walsh_map(m, k1);
        let inner = walsh_map(w1, k1);
        // The Walsh transform over k qubits is a Hadamard on qubit k-1
        // after the transform over k-1 qubits; move the inner Hadamard
        // out, then collapse the double Hadamard.
        assert(walsh_map(m, k) == mix_map(w1, 0u64, k1, h_mat()));
        assert(walsh_map(walsh_map(m, k), k) == mix_map(
            walsh_map(mix_map(w1, 0u64, k1, h_mat()), k1),
            0u64,
            k1,
            h_mat(),
        ));
        lemma_walsh_h_commute(w1, k1, k1);
        assert(walsh_map(mix_map(w1, 0u64, k1, h_mat()), k1) == mix_map(
            inner,
            0u64,
            k1,
            h_mat(),
        ));
        lemma_walsh_twice(m, k1);
        lemma_hadamard_twice(inner, k1);
        assert forall|j: u64| #[trigger] walsh_map(walsh_map(m, k), k)[j] == cmul(
            (pow2(k as nat), 0int),
            m[j],
        ) by {
            assert(walsh_map(walsh_map(m, k), k) == mix_map(
                mix_map(inner, 0u64, k1, h_mat()),
                0u64,
                k1,
                h_mat(),
            ));
            assert(mix_map(mix_map(inner, 0u64, k1, h_mat()), 0u64, k1, h_mat())[j] == cmul(
                (2int, 0int),
                inner[j],
            ));
            assert(inner[j] == cmul((pow2(k1 as nat), 0int), m[j]));
            lemma_cmul_assoc((2int, 0int), (pow2(k1 as nat), 0int), m[j]);
            let p = pow2(k1 as nat);
            assert(cmul((2int, 0int), (p, 0int)) == (2 * p, 0int)) by {
                assert(2int * p - 0int * 0int == 2 * p && 2int * 0int + 0int * p == 0)
                    by (nonlinear_arith);
            }
            assert(pow2(k as nat) == 2 * pow2(k1 as nat));
        }
    }
}

/// Tensor composition is associative: grouping three states either way
/// yields the same state map, so the same measurement distribution.
#[verifier::rlimit(100)]
pub proof fn lemma_tensor_associative(
    a: Map<u64, (int, int)>,
    b: Map<u64, (int, int)>,
    c: Map<u64, (int, int)>,
    wb: usize,
    wc: usize,
)
    requires
        wb + wc <= 62,
    ensures
        tensor_map(tensor_map(a, b, wb), c, wc) == tensor_map(
            a,
            tensor_map(b, c, wc),
            (wb + wc) as usize,
        ),
{
    assert forall|j: u64| #[trigger] tensor_map(tensor_map(a, b, wb), c, wc)[j] == tensor_map(
        a,
        tensor_map(b, c, wc),
        (wb + wc) as usize,
    )[j] by {
        let wbc = (wb + wc) as usize;
        assert((j >> (wc as u64)) >> (wb as u64) == j >> (wbc as u64)) by (bit_vector)
            requires
                wbc == wb + wc,
                wb + wc <= 62usize,
        ;
        assert((j >> (wc as u64)) & ((((1u64 << (wb as u64)) - 1) as u64)) == (j & ((((1u64 << (
        wbc as u64)) - 1) as u64))) >> (wc as u64)) by (bit_vector)
            requires
                wbc == wb + wc,
                wb + wc <= 62usize,
        ;
        assert((j & ((((1u64 << (wc as u64)) - 1) as u64))) == (j & ((((1u64 << (wbc as u64))
            - 1) as u64))) & ((((1u64 << (wc as u64)) - 1) as u64))) by (bit_vector)
            requires
                wbc == wb + wc,
                wb + wc <= 62usize,
        ;
        lemma_cmul_assoc(
            a[(j >> ((wb + wc) as u64))],
            b[((j & mask_bits((wb + wc) as usize)) >> (wc as u64))],
            c[(j & mask_bits(wc))],
        );
    }
    assert(tensor_map(tensor_map(a, b, wb), c, wc) =~= tensor_map(
        a,
        tensor_map(b, c, wc),
        (wb + wc) as usize,
    ));
}

/// Every well-formed register is exactly normalized: its mass — the sum
/// of squared amplitude magnitudes over the store — is positive, so the
/// probability of each basis state, its squared magnitude over the mass,
/// sums to exactly one over the store.  Every operation ends in a
/// well-formed register, so this holds after every gate application with
/// no floating-point tolerance.
pub proof fn lemma_probability_normalized(q: QuReg)
    requires
        q.inv(),
    ensures
        crate::store::mass(q.entries@) >= 1,
{
    crate::store::lemma_mass_lower(q.entries@, 0);
    crate::gauss::lemma_sq_sign(crate::store::amp(q.entries@[0]));
}

/// The register-level reading of tensor associativity: composing three
/// registers in either grouping denotes the same state.
pub proof fn lemma_tensor_associative_regs(a: QuReg, b: QuReg, c: QuReg)
    requires
        a.inv(),
        b.inv(),
        c.inv(),
        a.bits + b.bits + c.bits <= 62,
    ensures
        tensor_map(tensor_map(a.state(), b.state(), b.bits), c.state(), c.bits) == tensor_map(
            a.state(),
            tensor_map(b.state(), c.state(), c.bits),
            (b.bits + c.bits) as usize,
        ),
{
    lemma_tensor_associative(a.state(), b.state(), c.state(), b.bits, c.bits);
}

} // verus!