//! Algebraic laws of the gates: each of X, Z and H undoes itself.
use vstd::arithmetic::mul::{
    lemma_mul_is_associative, lemma_mul_is_distributive_add, lemma_mul_is_distributive_add_other_way,
};
use vstd::arithmetic::power2::{lemma2_to64, lemma_pow2_unfold, pow2};
use vstd::prelude::*;

use crate::builder::{
    cnot_chains, cnot_factors, cnot_operator, gate_block, lemma_cnot_chains_shape,
    lemma_single_chain_shape, single_chain, single_factor, single_operator, Gate,
};
use crate::circuit::{cnot_outcome, effect, single_outcome};
use crate::operator::{block_model, identity_entries, kron_entries, lemma_kron_identity, Block};
use crate::state::{all_even, apply_model, dot, halve, matvec, reduce, StateModel};

verus! {

/// The bit of index `r` that belongs to qubit `t`, for an index over qubits
/// `0..=q` (qubit 0 is the most significant).
pub open spec fn bit_of(r: int, t: nat, q: nat) -> int
    decreases q,
{
    if q <= t {
        r % 2
    } else {
        bit_of(r / 2, t, (q - 1) as nat)
    }
}

/// Index `r` with the bit of qubit `t` set to `b`.
pub open spec fn with_bit(r: int, t: nat, q: nat, b: int) -> int
    decreases q,
{
    if q <= t {
        2 * (r / 2) + b
    } else {
        2 * with_bit(r / 2, t, (q - 1) as nat, b) + r % 2
    }
}

/// Facts on the bit of qubit `t` of an index over qubits `0..=q`.
pub proof fn lemma_bit_facts(r: int, t: nat, q: nat, b: int)
    requires
        0 <= r < pow2(q + 1),
        t <= q,
        0 <= b <= 1,
    ensures
        0 <= bit_of(r, t, q) <= 1,
        0 <= with_bit(r, t, q, b) < pow2(q + 1),
        bit_of(with_bit(r, t, q, b), t, q) == b,
        with_bit(r, t, q, bit_of(r, t, q)) == r,
        forall|b2: int| 0 <= b2 <= 1 ==> #[trigger] with_bit(with_bit(r, t, q, b), t, q, b2) == with_bit(r, t, q, b2),
        with_bit(r, t, q, 0) != with_bit(r, t, q, 1),
    decreases q,
{
    lemma_pow2_unfold(q + 1);
    if q > t {
        let q1 = (q - 1) as nat;
        assert(q1 + 1 == q);
        lemma_bit_facts(r / 2, t, q1, b);
        lemma_bit_facts(r / 2, t, q1, 0);
        let w = with_bit(r, t, q, b);
        assert(w / 2 == with_bit(r / 2, t, q1, b));
        assert(w % 2 == r % 2);
        assert forall|b2: int| 0 <= b2 <= 1 implies #[trigger] with_bit(with_bit(r, t, q, b), t, q, b2) == with_bit(r, t, q, b2) by {
            assert(with_bit(w, t, q, b2) == 2 * with_bit(w / 2, t, q1, b2) + w % 2);
            assert(with_bit(with_bit(r / 2, t, q1, b), t, q1, b2) == with_bit(r / 2, t, q1, b2));
        }
    }
}

/// A chain whose target lies beyond qubit `q` is the identity.
pub proof fn lemma_chain_before_target(g: Gate, t: nat, q: nat)
    requires
        q < t,
    ensures
        single_chain(g, t, q).entries == identity_entries(pow2(q + 1)),
    decreases q,
{
    lemma_pow2_unfold(q + 1);
    assert(identity_entries(2) =~~= block_model(Block::Identity).entries);
    if q == 0 {
        lemma2_to64();
    } else {
        let q1 = (q - 1) as nat;
        assert(q1 + 1 == q);
        lemma_chain_before_target(g, t, q1);
        lemma_kron_identity(pow2(q), 2);
    }
}

/// The 2 by 2 block of a gate, entry by entry.
pub open spec fn g_at(g: Gate, i: int, j: int) -> int {
    block_model(gate_block(g)).entries[i][j]
}

/// Entries of a single-qubit chain: zero unless the row and column indices
/// agree on every qubit but `t`; otherwise the entry of the 2 by 2 matrix of `g`
/// picked by their two values of qubit `t`.
pub proof fn lemma_chain_entries(g: Gate, t: nat, q: nat, r: int, c: int)
    requires
        t <= q,
        0 <= r < pow2(q + 1),
        0 <= c < pow2(q + 1),
    ensures
        single_chain(g, t, q).entries[r][c] == if c == with_bit(r, t, q, bit_of(c, t, q)) {
            g_at(g, bit_of(r, t, q), bit_of(c, t, q))
        } else {
            0
        },
    decreases q,
{
    lemma_pow2_unfold(q + 1);
    lemma_single_chain_shape(g, t, q);
    if q == 0 {
        lemma2_to64();
        assert(single_chain(g, t, q) == block_model(gate_block(g)));
        assert(r < 2 && c < 2);
        assert(bit_of(c, t, q) == c && bit_of(r, t, q) == r);
        assert(with_bit(r, t, q, c) == c);
    } else {
        let q1 = (q - 1) as nat;
        assert(q1 + 1 == q);
        lemma_single_chain_shape(g, t, q1);
        let prev = single_chain(g, t, q1).entries;
        let f = block_model(single_factor(g, t, q)).entries;
        assert(single_chain(g, t, q).entries == kron_entries(prev, f));
        assert(single_chain(g, t, q).entries[r][c] == prev[r / 2][c / 2] * f[r % 2][c % 2]);
        assert(0 <= r / 2 < pow2(q) && 0 <= c / 2 < pow2(q));
        assert(c == 2 * (c / 2) + c % 2);
        if q == t {
            lemma_chain_before_target(g, t, q1);
            assert(prev[r / 2][c / 2] == if r / 2 == c / 2 { 1int } else { 0int });
            assert(bit_of(c, t, q) == c % 2);
            assert(bit_of(r, t, q) == r % 2);
            assert(f == block_model(gate_block(g)).entries);
            let x = prev[r / 2][c / 2];
            let y = f[r % 2][c % 2];
            if r / 2 == c / 2 {
                assert(x * y == y) by (nonlinear_arith)
                    requires
                        x == 1,
                ;
            } else {
                assert(x * y == 0) by (nonlinear_arith)
                    requires
                        x == 0,
                ;
            }
        } else {
            lemma_bit_facts(c / 2, t, q1, 0);
            lemma_chain_entries(g, t, q1, r / 2, c / 2);
            lemma_bit_facts(r / 2, t, q1, bit_of(c / 2, t, q1));
            assert(f == block_model(Block::Identity).entries);
            assert(bit_of(c, t, q) == bit_of(c / 2, t, q1));
            assert(bit_of(r, t, q) == bit_of(r / 2, t, q1));
            assert(with_bit(r, t, q, bit_of(c, t, q)) == 2 * with_bit(r / 2, t, q1, bit_of(c / 2, t, q1)) + r % 2);
            let x = prev[r / 2][c / 2];
            let y = f[r % 2][c % 2];
            if r % 2 == c % 2 {
                assert(y == 1);
                assert(x * y == x) by (nonlinear_arith)
                    requires
                        y == 1,
                ;
            } else {
                assert(y == 0);
                assert(x * y == 0) by (nonlinear_arith)
                    requires
                        y == 0,
                ;
            }
        }
    }
}

/// A sum of products over a row whose entries vanish outside `c0` and `c1`.
pub proof fn lemma_dot_two(row: Seq<int>, v: Seq<int>, c0: int, c1: int, k: nat)
    requires
        c0 != c1,
        0 <= c0,
        0 <= c1,
        forall|j: int| 0 <= j < k && j != c0 && j != c1 ==> #[trigger] row[j] == 0,
    ensures
        dot(row, v, k) == (if c0 < k { row[c0] * v[c0] } else { 0 }) + (if c1 < k {
            row[c1] * v[c1]
        } else {
            0
        }),
    decreases k,
{
    if k > 0 {
        lemma_dot_two(row, v, c0, c1, (k - 1) as nat);
        let j = k - 1;
        if j != c0 && j != c1 {
            let a = row[j];
            let b = v[j];
            assert(a * b == 0) by (nonlinear_arith)
                requires
                    a == 0,
            ;
        }
    }
}

/// Amplitude `r` after a single-qubit chain: one row of the 2 by 2 matrix of
/// `g`, chosen by qubit `t` of `r`, times the two amplitudes whose indices
/// agree with `r` on every qubit but `t`.
pub proof fn lemma_apply_row(g: Gate, t: nat, q: nat, v: Seq<int>, r: int)
    requires
        t <= q,
        v.len() == pow2(q + 1),
        0 <= r < pow2(q + 1),
    ensures
        matvec(single_chain(g, t, q).entries, v)[r] == g_at(g, bit_of(r, t, q), 0) * v[with_bit(
            r,
            t,
            q,
            0,
        )] + g_at(g, bit_of(r, t, q), 1) * v[with_bit(r, t, q, 1)],
{
    let m = single_chain(g, t, q).entries;
    lemma_single_chain_shape(g, t, q);
    let w0 = with_bit(r, t, q, 0);
    let w1 = with_bit(r, t, q, 1);
    lemma_bit_facts(r, t, q, 0);
    lemma_bit_facts(r, t, q, 1);
    assert forall|j: int| 0 <= j < v.len() && j != w0 && j != w1 implies #[trigger] m[r][j] == 0 by {
        lemma_chain_entries(g, t, q, r, j);
        lemma_bit_facts(j, t, q, 0);
    }
    lemma_chain_entries(g, t, q, r, w0);
    lemma_chain_entries(g, t, q, r, w1);
    lemma_dot_two(m[r], v, w0, w1, v.len());
}

/// The square of a gate's block is this multiple of the identity.
pub open spec fn square_factor(g: Gate) -> int {
    if g == Gate::H {
        2
    } else {
        1
    }
}

/// A row of a gate's block times the block is that row of its square, which
/// is `square_factor(g)` times the identity.
pub proof fn lemma_block_square(g: Gate, b: int)
    requires
        0 <= b <= 1,
    ensures
        g_at(g, b, 0) * g_at(g, 0, 0) + g_at(g, b, 1) * g_at(g, 1, 0) == (if b == 0 {
            square_factor(g)
        } else {
            0
        }),
        g_at(g, b, 0) * g_at(g, 0, 1) + g_at(g, b, 1) * g_at(g, 1, 1) == (if b == 1 {
            square_factor(g)
        } else {
            0
        }),
{
    let a00 = g_at(g, 0, 0);
    let a01 = g_at(g, 0, 1);
    let a10 = g_at(g, 1, 0);
    let a11 = g_at(g, 1, 1);
    let p0 = g_at(g, b, 0);
    let p1 = g_at(g, b, 1);
    let sf = square_factor(g);
    match g {
        Gate::X => {
            assert(a00 == 0 && a01 == 1 && a10 == 1 && a11 == 0);
        },
        Gate::Z => {
            assert(a00 == 1 && a01 == 0 && a10 == 0 && a11 == -1);
        },
        Gate::H => {
            assert(a00 == 1 && a01 == 1 && a10 == 1 && a11 == -1);
        },
    }
    assert(p0 * a00 + p1 * a10 == (if b == 0 { sf } else { 0 }) && p0 * a01 + p1 * a11 == (if b
        == 1 {
        sf
    } else {
        0
    })) by (nonlinear_arith)
        requires
            0 <= b <= 1,
            b == 0 ==> p0 == a00 && p1 == a01,
            b == 1 ==> p0 == a10 && p1 == a11,
            (a00 == 0 && a01 == 1 && a10 == 1 && a11 == 0 && sf == 1) || (a00 == 1 && a01 == 0
                && a10 == 0 && a11 == -1 && sf == 1) || (a00 == 1 && a01 == 1 && a10 == 1 && a11
                == -1 && sf == 2),
    ;
}

/// `p * (a * x + b * y) == (p * a) * x + (p * b) * y`
pub proof fn lemma_distribute(p: int, a: int, b: int, x: int, y: int)
    ensures
        p * (a * x + b * y) == (p * a) * x + (p * b) * y,
{
    lemma_mul_is_distributive_add(p, a * x, b * y);
    lemma_mul_is_associative(p, a, x);
    lemma_mul_is_associative(p, b, y);
}

/// Applying the integer matrix of a single-qubit chain twice multiplies every
/// amplitude by `square_factor(g)`.
pub proof fn lemma_apply_twice(g: Gate, t: nat, q: nat, v: Seq<int>)
    requires
        t <= q,
        v.len() == pow2(q + 1),
    ensures
        matvec(single_chain(g, t, q).entries, matvec(single_chain(g, t, q).entries, v))
            == Seq::new(v.len(), |i: int| square_factor(g) * v[i]),
{
    let m = single_chain(g, t, q).entries;
    lemma_single_chain_shape(g, t, q);
    let u = matvec(m, v);
    let w = matvec(m, u);
    assert forall|r: int| 0 <= r < v.len() implies #[trigger] w[r] == square_factor(g) * v[r] by {
        let w0 = with_bit(r, t, q, 0);
        let w1 = with_bit(r, t, q, 1);
        lemma_bit_facts(r, t, q, 0);
        lemma_bit_facts(r, t, q, 1);
        lemma_apply_row(g, t, q, u, r);
        lemma_apply_row(g, t, q, v, w0);
        lemma_apply_row(g, t, q, v, w1);
        let b = bit_of(r, t, q);
        assert(with_bit(w0, t, q, 0) == w0);
        assert(with_bit(w0, t, q, 1) == w1);
        assert(with_bit(w1, t, q, 0) == w0);
        assert(with_bit(w1, t, q, 1) == w1);
        let p0 = g_at(g, b, 0);
        let p1 = g_at(g, b, 1);
        let a00 = g_at(g, 0, 0);
        let a01 = g_at(g, 0, 1);
        let a10 = g_at(g, 1, 0);
        let a11 = g_at(g, 1, 1);
        let x0 = v[w0];
        let x1 = v[w1];
        assert(w[r] == p0 * (a00 * x0 + a01 * x1) + p1 * (a10 * x0 + a11 * x1));
        lemma_distribute(p0, a00, a01, x0, x1);
        lemma_distribute(p1, a10, a11, x0, x1);
        lemma_mul_is_distributive_add_other_way(x0, p0 * a00, p1 * a10);
        lemma_mul_is_distributive_add_other_way(x1, p0 * a01, p1 * a11);
        lemma_block_square(g, b);
        let sf = square_factor(g);
        if b == 0 {
            assert(r == w0);
            assert((p0 * a00 + p1 * a10) * x0 + (p0 * a01 + p1 * a11) * x1 == sf * x0) by (nonlinear_arith)
                requires
                    p0 * a00 + p1 * a10 == sf,
                    p0 * a01 + p1 * a11 == 0,
            ;
        } else {
            assert(r == w1);
            assert((p0 * a00 + p1 * a10) * x0 + (p0 * a01 + p1 * a11) * x1 == sf * x1) by (nonlinear_arith)
                requires
                    p0 * a00 + p1 * a10 == 0,
                    p0 * a01 + p1 * a11 == sf,
            ;
        }
    }
    assert(w =~= Seq::new(v.len(), |i: int| square_factor(g) * v[i]));
}

/// A sum of products with a vector of even entries is twice the sum with the
/// halved vector.
pub proof fn lemma_dot_halve(row: Seq<int>, u: Seq<int>, k: nat)
    requires
        all_even(u),
        k <= u.len(),
    ensures
        dot(row, u, k) == 2 * dot(row, halve(u), k),
    decreases k,
{
    if k > 0 {
        lemma_dot_halve(row, u, (k - 1) as nat);
        let a = row[k - 1];
        let x = u[k - 1];
        let h = halve(u)[k - 1];
        assert(x == 2 * h);
        assert(a * x == 2 * (a * h)) by (nonlinear_arith)
            requires
                x == 2 * h,
        ;
    }
}

/// A matrix maps a vector of even entries to one of even entries, and commutes
/// with halving it.
pub proof fn lemma_matvec_even(m: Seq<Seq<int>>, u: Seq<int>)
    requires
        all_even(u),
    ensures
        all_even(matvec(m, u)),
        halve(matvec(m, u)) == matvec(m, halve(u)),
{
    assert forall|i: int| 0 <= i < m.len() implies #[trigger] matvec(m, u)[i] == 2 * matvec(m, halve(u))[i] by {
        lemma_dot_halve(m[i], u, u.len());
    }
    assert(halve(matvec(m, u)) =~= matvec(m, halve(u)));
}

/// Canonical form never raises the scale.
pub proof fn lemma_reduce_scale(s: StateModel)
    ensures
        reduce(s).scale <= s.scale,
    decreases s.scale,
{
    if s.scale >= 2 && all_even(s.amplitudes) {
        lemma_reduce_scale(StateModel { amplitudes: halve(s.amplitudes), scale: (s.scale - 2) as nat });
    }
}

/// The state of a register after a call of a single-qubit gate, whether the
/// call succeeded or failed.
pub open spec fn state_after(g: Gate, t: nat, n: nat, s: StateModel) -> StateModel {
    effect(single_outcome(g, t, n, s), s).1
}

/// X, Z and H each undo themselves: calling the same single-qubit gate twice on
/// a register gives its state back. Left out is only the case where the first
/// call succeeds and the second overflows machine integers.
pub proof fn lemma_single_gate_twice(g: Gate, t: nat, n: nat, s: StateModel)
    requires
        n >= 1,
        s.amplitudes.len() == pow2(n),
        reduce(s) == s,
        single_outcome(g, t, n, s) is Ok ==> single_outcome(g, t, n, single_outcome(g, t, n, s)->Ok_0) is Ok,
    ensures
        state_after(g, t, n, state_after(g, t, n, s)) == s,
{
    if t < n && single_outcome(g, t, n, s) is Ok {
        let q = (n - 1) as nat;
        assert(q + 1 == n);
        let op = single_operator(g, t, n);
        let m = op.entries;
        lemma_single_chain_shape(g, t, q);
        let v = s.amplitudes;
        let k = s.scale;
        let mv = matvec(m, v);
        lemma_apply_twice(g, t, q, v);
        let s1 = apply_model(op, s);
        assert(state_after(g, t, n, s) == s1);
        assert(state_after(g, t, n, s1) == apply_model(op, s1));
        if g == Gate::H {
            let twice = matvec(m, mv);
            if k + 1 >= 2 && all_even(mv) {
                lemma_matvec_even(m, mv);
                assert(halve(twice) =~= v);
                if k - 1 >= 2 && all_even(halve(mv)) {
                    lemma_matvec_even(m, halve(mv));
                    lemma_reduce_scale(StateModel { amplitudes: halve(v), scale: (k - 2) as nat });
                    assert(false);
                }
                assert(s1 == reduce(StateModel { amplitudes: halve(mv), scale: (k - 1) as nat }));
                assert(s1 == StateModel { amplitudes: halve(mv), scale: (k - 1) as nat });
                assert(matvec(m, s1.amplitudes) == v);
            } else {
                assert(s1 == StateModel { amplitudes: mv, scale: k + 1 });
                assert(all_even(twice));
                assert(halve(twice) =~= v);
            }
        } else {
            assert(matvec(m, mv) =~= v);
            if k >= 2 && all_even(mv) {
                lemma_matvec_even(m, mv);
                lemma_reduce_scale(StateModel { amplitudes: halve(v), scale: (k - 2) as nat });
                assert(false);
            }
            assert(s1 == StateModel { amplitudes: mv, scale: k });
        }
    }
}

/// The sum of `f(i)` over `0 <= i < m`.
pub open spec fn sum_to(f: spec_fn(int) -> int, m: nat) -> int
    decreases m,
{
    if m == 0 {
        0
    } else {
        sum_to(f, (m - 1) as nat) + f(m - 1)
    }
}

/// The sum of the squares of the entries: the squared Euclidean norm of the
/// state, times `2^scale`.
pub open spec fn sq_norm(v: Seq<int>) -> int {
    sum_to(|i: int| v[i] * v[i], v.len())
}

/// Sums of functions that agree on the range are equal.
pub proof fn lemma_sum_ext(f: spec_fn(int) -> int, g: spec_fn(int) -> int, m: nat)
    requires
        forall|i: int| 0 <= i < m ==> #[trigger] f(i) == g(i),
    ensures
        sum_to(f, m) == sum_to(g, m),
    decreases m,
{
    if m > 0 {
        lemma_sum_ext(f, g, (m - 1) as nat);
    }
}

/// A sum over `0..2m` splits into the sum over even and over odd indices.
pub proof fn lemma_sum_split(f: spec_fn(int) -> int, m: nat)
    ensures
        sum_to(f, 2 * m) == sum_to(|i: int| f(2 * i), m) + sum_to(|i: int| f(2 * i + 1), m),
    decreases m,
{
    if m > 0 {
        lemma_sum_split(f, (m - 1) as nat);
        assert(sum_to(f, 2 * m) == sum_to(f, (2 * m - 1) as nat) + f(2 * m - 1));
        assert(sum_to(f, (2 * m - 1) as nat) == sum_to(f, (2 * m - 2) as nat) + f(2 * m - 2));
        assert((2 * m - 2) as nat == 2 * ((m - 1) as nat));
    }
}

/// The sum of a pointwise sum is the sum of the sums.
pub proof fn lemma_sum_add(f: spec_fn(int) -> int, g: spec_fn(int) -> int, m: nat)
    ensures
        sum_to(|i: int| f(i) + g(i), m) == sum_to(f, m) + sum_to(g, m),
    decreases m,
{
    if m > 0 {
        lemma_sum_add(f, g, (m - 1) as nat);
    }
}

/// A constant factor comes out of a sum.
pub proof fn lemma_sum_scale(c: int, f: spec_fn(int) -> int, m: nat)
    ensures
        sum_to(|i: int| c * f(i), m) == c * sum_to(f, m),
    decreases m,
{
    if m > 0 {
        lemma_sum_scale(c, f, (m - 1) as nat);
        lemma_mul_is_distributive_add(c, sum_to(f, (m - 1) as nat), f(m - 1));
    }
}

/// Amplitude `r` after a single-qubit chain, written by the target bit.
pub open spec fn row_val(g: Gate, t: nat, q: nat, v: Seq<int>, r: int) -> int {
    g_at(g, bit_of(r, t, q), 0) * v[with_bit(r, t, q, 0)] + g_at(g, bit_of(r, t, q), 1) * v[with_bit(
        r,
        t,
        q,
        1,
    )]
}

/// The entries of `v` whose index ends in bit `l`.
pub open spec fn sub_vector(v: Seq<int>, l: int) -> Seq<int> {
    Seq::new(v.len() / 2, |i: int| v[2 * i + l])
}

/// Over one pair of amplitudes, a gate's block multiplies the sum of squares
/// by `square_factor(g)`.
pub proof fn lemma_pair_norm(g: Gate, x: int, y: int)
    ensures
        (g_at(g, 0, 0) * x + g_at(g, 0, 1) * y) * (g_at(g, 0, 0) * x + g_at(g, 0, 1) * y) + (g_at(
            g,
            1,
            0,
        ) * x + g_at(g, 1, 1) * y) * (g_at(g, 1, 0) * x + g_at(g, 1, 1) * y) == square_factor(g) * (x
            * x + y * y),
{
    let a00 = g_at(g, 0, 0);
    let a01 = g_at(g, 0, 1);
    let a10 = g_at(g, 1, 0);
    let a11 = g_at(g, 1, 1);
    let sf = square_factor(g);
    match g {
        Gate::X => {
            assert(a00 == 0 && a01 == 1 && a10 == 1 && a11 == 0);
        },
        Gate::Z => {
            assert(a00 == 1 && a01 == 0 && a10 == 0 && a11 == -1);
        },
        Gate::H => {
            assert(a00 == 1 && a01 == 1 && a10 == 1 && a11 == -1);
        },
    }
    assert((a00 * x + a01 * y) * (a00 * x + a01 * y) + (a10 * x + a11 * y) * (a10 * x + a11 * y)
        == sf * (x * x + y * y)) by (nonlinear_arith)
        requires
            (a00 == 0 && a01 == 1 && a10 == 1 && a11 == 0 && sf == 1) || (a00 == 1 && a01 == 0
                && a10 == 0 && a11 == -1 && sf == 1) || (a00 == 1 && a01 == 1 && a10 == 1 && a11
                == -1 && sf == 2),
    ;
}

/// The sum of squares after a single-qubit chain is `square_factor(g)` times
/// the sum of squares before.
pub proof fn lemma_chain_norm(g: Gate, t: nat, q: nat, v: Seq<int>)
    requires
        t <= q,
        v.len() == pow2(q + 1),
    ensures
        sum_to(|r: int| row_val(g, t, q, v, r) * row_val(g, t, q, v, r), pow2(q + 1))
            == square_factor(g) * sum_to(|r: int| v[r] * v[r], pow2(q + 1)),
    decreases q,
{
    lemma_pow2_unfold(q + 1);
    let half = pow2(q);
    let f = |r: int| row_val(g, t, q, v, r) * row_val(g, t, q, v, r);
    let sq = |r: int| v[r] * v[r];
    let sf = square_factor(g);
    assert(pow2(q + 1) == 2 * half);
    lemma_sum_split(f, half);
    lemma_sum_split(sq, half);
    let fe = |i: int| f(2 * i);
    let fo = |i: int| f(2 * i + 1);
    let se = |i: int| sq(2 * i);
    let so = |i: int| sq(2 * i + 1);
    if q == t {
        let ss = |i: int| se(i) + so(i);
        let pair = |i: int| sf * ss(i);
        let both = |i: int| fe(i) + fo(i);
        assert forall|i: int| 0 <= i < half implies #[trigger] both(i) == pair(i) by {
            assert(bit_of(2 * i, t, q) == 0 && bit_of(2 * i + 1, t, q) == 1);
            assert(with_bit(2 * i, t, q, 0) == 2 * i && with_bit(2 * i, t, q, 1) == 2 * i + 1);
            assert(with_bit(2 * i + 1, t, q, 0) == 2 * i && with_bit(2 * i + 1, t, q, 1) == 2 * i
                + 1);
            lemma_pair_norm(g, v[2 * i], v[2 * i + 1]);
        }
        lemma_sum_add(fe, fo, half);
        lemma_sum_ext(both, pair, half);
        lemma_sum_scale(sf, ss, half);
        lemma_sum_add(se, so, half);
    } else {
        let q1 = (q - 1) as nat;
        assert(q1 + 1 == q);
        let v0 = sub_vector(v, 0);
        let v1 = sub_vector(v, 1);
        lemma_chain_norm(g, t, q1, v0);
        lemma_chain_norm(g, t, q1, v1);
        assert forall|i: int|
            #![trigger fe(i)]
            #![trigger fo(i)]
            0 <= i < half implies fe(i) == row_val(g, t, q1, v0, i)
            * row_val(g, t, q1, v0, i) && fo(i) == row_val(g, t, q1, v1, i) * row_val(
            g,
            t,
            q1,
            v1,
            i,
        ) by {
            lemma_bit_facts(i, t, q1, 0);
            lemma_bit_facts(i, t, q1, 1);
            assert((2 * i) / 2 == i && (2 * i + 1) / 2 == i);
            assert(with_bit(2 * i, t, q, 0) == 2 * with_bit(i, t, q1, 0));
            assert(with_bit(2 * i, t, q, 1) == 2 * with_bit(i, t, q1, 1));
            assert(with_bit(2 * i + 1, t, q, 0) == 2 * with_bit(i, t, q1, 0) + 1);
            assert(with_bit(2 * i + 1, t, q, 1) == 2 * with_bit(i, t, q1, 1) + 1);
            assert(bit_of(2 * i, t, q) == bit_of(i, t, q1));
            assert(bit_of(2 * i + 1, t, q) == bit_of(i, t, q1));
            assert(v0[with_bit(i, t, q1, 0)] == v[with_bit(2 * i, t, q, 0)]);
            assert(v0[with_bit(i, t, q1, 1)] == v[with_bit(2 * i, t, q, 1)]);
            assert(v1[with_bit(i, t, q1, 0)] == v[with_bit(2 * i + 1, t, q, 0)]);
            assert(v1[with_bit(i, t, q1, 1)] == v[with_bit(2 * i + 1, t, q, 1)]);
            assert(row_val(g, t, q, v, 2 * i) == row_val(g, t, q1, v0, i));
            assert(row_val(g, t, q, v, 2 * i + 1) == row_val(g, t, q1, v1, i));
        }
        lemma_sum_ext(fe, |r: int| row_val(g, t, q1, v0, r) * row_val(g, t, q1, v0, r), half);
        lemma_sum_ext(fo, |r: int| row_val(g, t, q1, v1, r) * row_val(g, t, q1, v1, r), half);
        lemma_sum_ext(se, |r: int| v0[r] * v0[r], half);
        lemma_sum_ext(so, |r: int| v1[r] * v1[r], half);
        lemma_mul_is_distributive_add(sf, sum_to(se, half), sum_to(so, half));
    }
}

/// Canonical form keeps the sum of squares divided by `2^scale`.
pub proof fn lemma_reduce_norm(s: StateModel)
    ensures
        sq_norm(reduce(s).amplitudes) * pow2(s.scale) == sq_norm(s.amplitudes) * pow2(
            reduce(s).scale,
        ),
    decreases s.scale,
{
    if s.scale >= 2 && all_even(s.amplitudes) {
        let v = s.amplitudes;
        let h = halve(v);
        let k2 = (s.scale - 2) as nat;
        let s2 = StateModel { amplitudes: h, scale: k2 };
        lemma_reduce_norm(s2);
        let sv = |i: int| v[i] * v[i];
        let hh = |i: int| h[i] * h[i];
        let sh4 = |i: int| 4 * hh(i);
        assert forall|i: int| 0 <= i < v.len() implies #[trigger] sv(i) == sh4(i) by {
            assert(v[i] == 2 * h[i]);
            let x = h[i];
            assert((2 * x) * (2 * x) == 4 * (x * x)) by (nonlinear_arith);
        }
        lemma_sum_ext(sv, sh4, v.len());
        lemma_sum_scale(4, hh, v.len());
        lemma_pow2_unfold(s.scale);
        lemma_pow2_unfold((s.scale - 1) as nat);
        assert(((s.scale - 1) as nat - 1) as nat == k2);
        assert(pow2(s.scale) == 4 * pow2(k2));
        assert(sq_norm(v) == sum_to(sv, v.len()));
        assert(sum_to(sh4, v.len()) == 4 * sum_to(hh, v.len()));
        assert(sq_norm(h) == sum_to(hh, v.len()));
        assert(sq_norm(v) == 4 * sq_norm(h));
        assert(reduce(s) == reduce(s2));
        let a = sq_norm(reduce(s2).amplitudes);
        let b = sq_norm(h);
        let p = pow2(k2);
        let pr = pow2(reduce(s2).scale);
        assert(a * (4 * p) == (4 * b) * pr) by (nonlinear_arith)
            requires
                a * p == b * pr,
        ;
    }
}

/// Each of X, Z and H keeps the Euclidean norm of a register's state: the sum
/// of squares of the amplitudes over `2^scale` is the same after the call as
/// before, whether the call succeeds or fails.
pub proof fn lemma_single_gate_norm(g: Gate, t: nat, n: nat, s: StateModel)
    requires
        n >= 1,
        s.amplitudes.len() == pow2(n),
    ensures
        sq_norm(state_after(g, t, n, s).amplitudes) * pow2(s.scale) == sq_norm(s.amplitudes)
            * pow2(state_after(g, t, n, s).scale),
{
    if t < n && single_outcome(g, t, n, s) is Ok {
        let q = (n - 1) as nat;
        assert(q + 1 == n);
        let op = single_operator(g, t, n);
        let m = op.entries;
        lemma_single_chain_shape(g, t, q);
        let v = s.amplitudes;
        let mv = matvec(m, v);
        let smv = |r: int| mv[r] * mv[r];
        let srow = |r: int| row_val(g, t, q, v, r) * row_val(g, t, q, v, r);
        assert forall|r: int| 0 <= r < pow2(n) implies #[trigger] smv(r) == srow(r) by {
            lemma_apply_row(g, t, q, v, r);
        }
        lemma_sum_ext(smv, srow, pow2(n));
        lemma_chain_norm(g, t, q, v);
        let before = StateModel { amplitudes: mv, scale: op.scale + s.scale };
        lemma_reduce_norm(before);
        let s1 = apply_model(op, s);
        assert(state_after(g, t, n, s) == s1);
        let sf = square_factor(g);
        if op.scale > 0 {
            lemma_pow2_unfold(op.scale + s.scale);
            assert((op.scale + s.scale - 1) as nat == s.scale);
        }
        assert(pow2(op.scale + s.scale) == sf * pow2(s.scale));
        let a = sq_norm(s1.amplitudes);
        let b = sq_norm(v);
        assert(a * pow2(s.scale) == b * pow2(s1.scale)) by (nonlinear_arith)
            requires
                a * (sf * pow2(s.scale)) == (sf * b) * pow2(s1.scale),
                sf >= 1,
        ;
    }
}

/// Index `r` with the bit of qubit `t` flipped.
pub open spec fn flip(r: int, t: nat, q: nat) -> int {
    with_bit(r, t, q, 1 - bit_of(r, t, q))
}

/// Entry `(r, col)` of the CNOT chain where the control is 0, over qubits
/// `0..=q`.
pub open spec fn cnot_low(c: nat, q: nat, r: int, col: int) -> int {
    if r == col && (c > q || bit_of(r, c, q) == 0) {
        1
    } else {
        0
    }
}

/// Entry `(r, col)` of the CNOT chain where the control is 1, over qubits
/// `0..=q`.
pub open spec fn cnot_high(t: nat, c: nat, q: nat, r: int, col: int) -> int {
    if col == (if t <= q { flip(r, t, q) } else { r }) && (c > q || bit_of(r, c, q) == 1) {
        1
    } else {
        0
    }
}

/// A product of two values among 0 and 1 is 1 exactly when both are.
pub proof fn lemma_indicator_product(x: int, y: int)
    requires
        x == 0 || x == 1,
        y == 0 || y == 1,
    ensures
        x * y == (if x == 1 && y == 1 { 1int } else { 0int }),
{
    assert(x * y == (if x == 1 && y == 1 { 1int } else { 0int })) by (nonlinear_arith)
        requires
            x == 0 || x == 1,
            y == 0 || y == 1,
    ;
}

/// Entries of the two CNOT chains.
pub proof fn lemma_cnot_chain_entries(t: nat, c: nat, q: nat, r: int, col: int)
    requires
        t != c,
        0 <= r < pow2(q + 1),
        0 <= col < pow2(q + 1),
    ensures
        cnot_chains(t, c, q).0.entries[r][col] == cnot_low(c, q, r, col),
        cnot_chains(t, c, q).1.entries[r][col] == cnot_high(t, c, q, r, col),
    decreases q,
{
    lemma_pow2_unfold(q + 1);
    lemma_cnot_chains_shape(t, c, q);
    let f = cnot_factors(t, c, q);
    let f0 = block_model(f.0).entries;
    let f1 = block_model(f.1).entries;
    if q == 0 {
        lemma2_to64();
        assert(r < 2 && col < 2);
        assert(bit_of(r, t, q) == r && bit_of(r, c, q) == r);
        assert(with_bit(r, t, q, 1 - r) == 1 - r);
    } else {
        let q1 = (q - 1) as nat;
        assert(q1 + 1 == q);
        let p = cnot_chains(t, c, q1);
        lemma_cnot_chains_shape(t, c, q1);
        assert(0 <= r / 2 < pow2(q) && 0 <= col / 2 < pow2(q));
        assert(col == 2 * (col / 2) + col % 2 && r == 2 * (r / 2) + r % 2);
        lemma_cnot_chain_entries(t, c, q1, r / 2, col / 2);
        let lo = p.0.entries[r / 2][col / 2];
        let hi = p.1.entries[r / 2][col / 2];
        let x0 = f0[r % 2][col % 2];
        let x1 = f1[r % 2][col % 2];
        assert(cnot_chains(t, c, q).0.entries == kron_entries(p.0.entries, f0));
        assert(cnot_chains(t, c, q).1.entries == kron_entries(p.1.entries, f1));
        assert(cnot_chains(t, c, q).0.entries[r][col] == lo * x0);
        assert(cnot_chains(t, c, q).1.entries[r][col] == hi * x1);
        assert(x0 == 0 || x0 == 1);
        assert(x1 == 0 || x1 == 1);
        lemma_indicator_product(lo, x0);
        lemma_indicator_product(hi, x1);
        if c < q {
            assert(bit_of(r, c, q) == bit_of(r / 2, c, q1));
        }
        if t < q {
            lemma_bit_facts(r / 2, t, q1, 0);
            assert(flip(r, t, q) == 2 * flip(r / 2, t, q1) + r % 2);
        }
        if q == t {
            assert(bit_of(r, t, q) == r % 2);
            assert(flip(r, t, q) == 2 * (r / 2) + 1 - r % 2);
        }
        if q == c {
            assert(bit_of(r, c, q) == r % 2);
        }
    }
}

/// Where CNOT sends amplitude `r` from: its target bit flipped when its
/// control bit is 1.
pub open spec fn cnot_source(r: int, t: nat, c: nat, q: nat) -> int {
    if bit_of(r, c, q) == 1 {
        flip(r, t, q)
    } else {
        r
    }
}

/// Amplitude `r` after CNOT is amplitude `cnot_source(r)` before.
pub proof fn lemma_cnot_row(t: nat, c: nat, q: nat, v: Seq<int>, r: int)
    requires
        t != c,
        t <= q,
        c <= q,
        v.len() == pow2(q + 1),
        0 <= r < pow2(q + 1),
    ensures
        0 <= cnot_source(r, t, c, q) < pow2(q + 1),
        matvec(cnot_operator(t, c, q + 1).entries, v)[r] == v[cnot_source(r, t, c, q)],
{
    let n = q + 1;
    assert((n - 1) as nat == q);
    lemma_cnot_chains_shape(t, c, q);
    let p = cnot_chains(t, c, q);
    let m = cnot_operator(t, c, n).entries;
    lemma_bit_facts(r, t, q, 0);
    lemma_bit_facts(r, c, q, 0);
    lemma_bit_facts(r, t, q, 1 - bit_of(r, t, q));
    let src = cnot_source(r, t, c, q);
    assert forall|j: int| 0 <= j < v.len() implies #[trigger] m[r][j] == (if j == src { 1int } else { 0int }) by {
        lemma_cnot_chain_entries(t, c, q, r, j);
    }
    lemma_dot_two(m[r], v, src, src + 1, v.len());
    let x = v[src];
    assert(1 * x == x);
}

/// CNOT keeps the sum of squares: `cnot_source` only reorders the amplitudes.
pub proof fn lemma_cnot_norm(t: nat, c: nat, q: nat, v: Seq<int>)
    requires
        t != c,
        t <= q,
        c <= q,
        v.len() == pow2(q + 1),
    ensures
        sum_to(|r: int| v[cnot_source(r, t, c, q)] * v[cnot_source(r, t, c, q)], pow2(q + 1))
            == sum_to(|r: int| v[r] * v[r], pow2(q + 1)),
    decreases q,
{
    lemma_pow2_unfold(q + 1);
    let half = pow2(q);
    assert(pow2(q + 1) == 2 * half);
    let f = |r: int| v[cnot_source(r, t, c, q)] * v[cnot_source(r, t, c, q)];
    let sq = |r: int| v[r] * v[r];
    lemma_sum_split(f, half);
    lemma_sum_split(sq, half);
    let fe = |i: int| f(2 * i);
    let fo = |i: int| f(2 * i + 1);
    let se = |i: int| sq(2 * i);
    let so = |i: int| sq(2 * i + 1);
    let q1 = (q - 1) as nat;
    let v0 = sub_vector(v, 0);
    let v1 = sub_vector(v, 1);
    if q == t {
        assert(c < q);
        assert(q1 + 1 == q);
        let both = |i: int| fe(i) + fo(i);
        let ss = |i: int| se(i) + so(i);
        assert forall|i: int| 0 <= i < half implies #[trigger] both(i) == ss(i) by {
            assert(bit_of(2 * i, c, q) == bit_of(i, c, q1));
            assert(bit_of(2 * i + 1, c, q) == bit_of(i, c, q1));
            assert(flip(2 * i, t, q) == 2 * i + 1);
            assert(flip(2 * i + 1, t, q) == 2 * i);
        }
        lemma_sum_add(fe, fo, half);
        lemma_sum_ext(both, ss, half);
        lemma_sum_add(se, so, half);
    } else if q == c {
        assert(t < q);
        assert(q1 + 1 == q);
        let xrow = |r: int| row_val(Gate::X, t, q1, v1, r) * row_val(Gate::X, t, q1, v1, r);
        assert forall|i: int|
            #![trigger fe(i)]
            #![trigger fo(i)]
            0 <= i < half implies fe(i) == se(i) && fo(i) == xrow(i) by {
            lemma_bit_facts(i, t, q1, 0);
            lemma_bit_facts(i, t, q1, 1);
            assert(bit_of(2 * i, c, q) == 0 && bit_of(2 * i + 1, c, q) == 1);
            assert(bit_of(2 * i + 1, t, q) == bit_of(i, t, q1));
            assert(flip(2 * i + 1, t, q) == 2 * flip(i, t, q1) + 1);
            assert(g_at(Gate::X, 0, 0) == 0 && g_at(Gate::X, 0, 1) == 1);
            assert(g_at(Gate::X, 1, 0) == 1 && g_at(Gate::X, 1, 1) == 0);
            let w0 = v1[with_bit(i, t, q1, 0)];
            let w1 = v1[with_bit(i, t, q1, 1)];
            assert(0 * w0 + 1 * w1 == w1 && 1 * w0 + 0 * w1 == w0);
        }
        lemma_sum_ext(fe, se, half);
        lemma_sum_ext(fo, xrow, half);
        lemma_chain_norm(Gate::X, t, q1, v1);
        lemma_sum_ext(so, |r: int| v1[r] * v1[r], half);
    } else {
        assert(q1 + 1 == q);
        lemma_cnot_norm(t, c, q1, v0);
        lemma_cnot_norm(t, c, q1, v1);
        let g0 = |r: int| v0[cnot_source(r, t, c, q1)] * v0[cnot_source(r, t, c, q1)];
        let g1 = |r: int| v1[cnot_source(r, t, c, q1)] * v1[cnot_source(r, t, c, q1)];
        assert forall|i: int|
            #![trigger fe(i)]
            #![trigger fo(i)]
            0 <= i < half implies fe(i) == g0(i) && fo(i) == g1(i) by {
            lemma_bit_facts(i, t, q1, 0);
            lemma_bit_facts(i, t, q1, 1);
            lemma_bit_facts(i, c, q1, 0);
            assert((2 * i) / 2 == i && (2 * i + 1) / 2 == i);
            assert(bit_of(2 * i, c, q) == bit_of(i, c, q1));
            assert(bit_of(2 * i + 1, c, q) == bit_of(i, c, q1));
            assert(flip(2 * i, t, q) == 2 * flip(i, t, q1));
            assert(flip(2 * i + 1, t, q) == 2 * flip(i, t, q1) + 1);
        }
        lemma_sum_ext(fe, g0, half);
        lemma_sum_ext(fo, g1, half);
        lemma_sum_ext(se, |r: int| v0[r] * v0[r], half);
        lemma_sum_ext(so, |r: int| v1[r] * v1[r], half);
    }
}

/// The state of a register after a call of CNOT, whether the call succeeded
/// or failed.
pub open spec fn cnot_state_after(t: nat, c: nat, n: nat, s: StateModel) -> StateModel {
    effect(cnot_outcome(t, c, n, s), s).1
}

/// CNOT keeps the Euclidean norm of a register's state: the sum of squares of
/// the amplitudes over `2^scale` is the same after the call as before, whether
/// the call succeeds or fails.
pub proof fn lemma_cnot_gate_norm(t: nat, c: nat, n: nat, s: StateModel)
    requires
        n >= 1,
        s.amplitudes.len() == pow2(n),
    ensures
        sq_norm(cnot_state_after(t, c, n, s).amplitudes) * pow2(s.scale) == sq_norm(s.amplitudes)
            * pow2(cnot_state_after(t, c, n, s).scale),
{
    if cnot_outcome(t, c, n, s) is Ok {
        let q = (n - 1) as nat;
        assert(q + 1 == n);
        let op = cnot_operator(t, c, n);
        lemma_cnot_chains_shape(t, c, q);
        let v = s.amplitudes;
        let mv = matvec(op.entries, v);
        let smv = |r: int| mv[r] * mv[r];
        let ssrc = |r: int| v[cnot_source(r, t, c, q)] * v[cnot_source(r, t, c, q)];
        assert forall|r: int| 0 <= r < pow2(n) implies #[trigger] smv(r) == ssrc(r) by {
            lemma_cnot_row(t, c, q, v, r);
        }
        lemma_sum_ext(smv, ssrc, pow2(n));
        lemma_cnot_norm(t, c, q, v);
        assert(op.scale == 0);
        let before = StateModel { amplitudes: mv, scale: op.scale + s.scale };
        lemma_reduce_norm(before);
        assert(cnot_state_after(t, c, n, s) == apply_model(op, s));
    }
}

} // verus!
