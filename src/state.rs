//! State vectors and the application of an operator to them.
use vstd::prelude::*;

use crate::operator::{in_i64, ints, is_square, Operator, OperatorModel};

verus! {

/// Mathematical model of a state: amplitude `i` is
/// `amplitudes[i] / sqrt(2)^scale`.
pub struct StateModel {
    pub amplitudes: Seq<int>,
    pub scale: nat,
}

/// A dense state vector: amplitude `i` is `amplitudes[i] / sqrt(2)^scale`.
#[derive(Debug)]
pub struct StateVector {
    pub amplitudes: Vec<i64>,
    pub scale: u32,
}

impl View for StateVector {
    type V = StateModel;

    open spec fn view(&self) -> StateModel {
        StateModel { amplitudes: ints(self.amplitudes@), scale: self.scale as nat }
    }
}

/// The sum of the first `k` products `row[j] * v[j]`.
pub open spec fn dot(row: Seq<int>, v: Seq<int>, k: nat) -> int
    decreases k,
{
    if k == 0 {
        0
    } else {
        dot(row, v, (k - 1) as nat) + row[k - 1] * v[k - 1]
    }
}

/// The product of a matrix and a vector.
pub open spec fn matvec(m: Seq<Seq<int>>, v: Seq<int>) -> Seq<int> {
    Seq::new(m.len(), |i: int| dot(m[i], v, v.len()))
}

/// Every product and every partial sum of `dot(row, v, v.len())` fits in an
/// `i64`.
pub open spec fn dot_fits(row: Seq<int>, v: Seq<int>) -> bool {
    forall|k: int| 0 <= k < v.len() ==> #[trigger] step_fits(row, v, k)
}

/// The `k`-th product of `dot(row, v, _)`, and the partial sum that ends with
/// it, fit in an `i64`.
pub open spec fn step_fits(row: Seq<int>, v: Seq<int>, k: int) -> bool {
    in_i64(row[k] * v[k]) && in_i64(dot(row, v, (k + 1) as nat))
}

/// Whether every amplitude is even.
pub open spec fn all_even(v: Seq<int>) -> bool {
    forall|i: int| 0 <= i < v.len() ==> #[trigger] v[i] % 2 == 0
}

/// Each amplitude halved.
pub open spec fn halve(v: Seq<int>) -> Seq<int> {
    Seq::new(v.len(), |i: int| v[i] / 2)
}

/// The canonical form of a state: while the scale is at least 2 and every
/// amplitude is even, halve the amplitudes and lower the scale by 2. The value
/// that the state stands for does not change.
pub open spec fn reduce(s: StateModel) -> StateModel
    decreases s.scale,
{
    if s.scale >= 2 && all_even(s.amplitudes) {
        reduce(StateModel { amplitudes: halve(s.amplitudes), scale: (s.scale - 2) as nat })
    } else {
        s
    }
}

/// Whether the exact product of `op` and `s` can be computed in machine
/// integers: every product and partial sum fits in an `i64`, and the scales
/// add up within a `u32`.
pub open spec fn application_fits(op: OperatorModel, s: StateModel) -> bool {
    &&& op.scale + s.scale <= u32::MAX
    &&& forall|i: int| 0 <= i < op.entries.len() ==> #[trigger] dot_fits(op.entries[i], s.amplitudes)
}

/// The state after applying `op`, in canonical form.
pub open spec fn apply_model(op: OperatorModel, s: StateModel) -> StateModel {
    reduce(StateModel { amplitudes: matvec(op.entries, s.amplitudes), scale: op.scale + s.scale })
}

/// Canonical form keeps the number of amplitudes.
pub proof fn lemma_reduce_len(s: StateModel)
    ensures
        reduce(s).amplitudes.len() == s.amplitudes.len(),
    decreases s.scale,
{
    if s.scale >= 2 && all_even(s.amplitudes) {
        lemma_reduce_len(StateModel { amplitudes: halve(s.amplitudes), scale: (s.scale - 2) as nat });
    }
}

/// A state in canonical form stays as it is.
pub proof fn lemma_reduce_canonical(s: StateModel)
    ensures
        reduce(reduce(s)) == reduce(s),
    decreases s.scale,
{
    if s.scale >= 2 && all_even(s.amplitudes) {
        lemma_reduce_canonical(StateModel { amplitudes: halve(s.amplitudes), scale: (s.scale - 2) as nat });
    }
}

fn dot_row(row: &Vec<i64>, v: &Vec<i64>) -> (r: Option<i64>)
    requires
        row@.len() == v@.len(),
    ensures
        r is Some <==> dot_fits(ints(row@), ints(v@)),
        r is Some ==> r->Some_0 as int == dot(ints(row@), ints(v@), v@.len() as nat),
{
    let ghost rs = ints(row@);
    let ghost vs = ints(v@);
    let mut acc: i64 = 0;
    let mut k: usize = 0;
    while k < v.len()
        invariant
            row@.len() == v@.len(),
            rs == ints(row@),
            vs == ints(v@),
            k <= v@.len(),
            acc as int == dot(rs, vs, k as nat),
            forall|j: int| 0 <= j < k ==> #[trigger] step_fits(rs, vs, j),
        decreases v@.len() - k,
    {
        assert(rs.len() == vs.len() && vs.len() == v@.len());
        assert(dot(rs, vs, (k + 1) as nat) == dot(rs, vs, k as nat) + rs[k as int] * vs[k as int]);
        match row[k].checked_mul(v[k]) {
            None => {
                assert(!step_fits(rs, vs, k as int));
                return None;
            },
            Some(p) => match acc.checked_add(p) {
                None => {
                    assert(!step_fits(rs, vs, k as int));
                    return None;
                },
                Some(s) => {
                    acc = s;
                    assert(step_fits(rs, vs, k as int));
                },
            },
        }
        k += 1;
    }
    assert(vs.len() == v@.len());
    Some(acc)
}

fn all_even_exec(v: &Vec<i64>) -> (r: bool)
    ensures
        r == all_even(ints(v@)),
{
    let mut i: usize = 0;
    while i < v.len()
        invariant
            i <= v@.len(),
            forall|j: int| 0 <= j < i ==> #[trigger] ints(v@)[j] % 2 == 0,
        decreases v@.len() - i,
    {
        if v[i] % 2 != 0 {
            assert(ints(v@)[i as int] % 2 != 0);
            return false;
        }
        i += 1;
    }
    true
}

/// Brings a state into canonical form.
pub fn reduce_state(s: StateVector) -> (r: StateVector)
    ensures
        r@ == reduce(s@),
{
    let mut cur = s;
    while cur.scale >= 2 && all_even_exec(&cur.amplitudes)
        invariant
            reduce(cur@) == reduce(s@),
        decreases cur.scale,
    {
        let ghost before = cur@;
        let mut halved: Vec<i64> = Vec::new();
        let mut i: usize = 0;
        while i < cur.amplitudes.len()
            invariant
                all_even(cur@.amplitudes),
                i <= cur.amplitudes@.len(),
                halved@.len() == i,
                forall|j: int| 0 <= j < i ==> #[trigger] halved@[j] as int == cur@.amplitudes[j] / 2,
            decreases cur.amplitudes@.len() - i,
        {
            let x = cur.amplitudes[i];
            assert(cur@.amplitudes[i as int] == x as int);
            assert(x as int % 2 == 0);
            assert(x / 2 == x as int / 2) by (bit_vector)
                requires
                    x % 2 == 0,
            ;
            halved.push(x / 2);
            i += 1;
        }
        cur = StateVector { amplitudes: halved, scale: cur.scale - 2 };
        assert(cur@.amplitudes =~= halve(before.amplitudes));
    }
    cur
}

/// Applies a square operator to a state of matching length: the product of the
/// two in canonical form, or `None` where the exact product does not fit in
/// machine integers.
pub fn apply_operator(op: &Operator, s: &StateVector) -> (r: Option<StateVector>)
    requires
        is_square(op@.entries),
        op@.entries.len() == s@.amplitudes.len(),
    ensures
        r is Some <==> application_fits(op@, s@),
        r is Some ==> r->Some_0@ == apply_model(op@, s@),
        r is Some ==> r->Some_0@.amplitudes.len() == s@.amplitudes.len(),
        r is Some ==> reduce(r->Some_0@) == r->Some_0@,
{
    let n = op.entries.len();
    if s.scale > u32::MAX - op.scale {
        return None;
    }
    let mut out: Vec<i64> = Vec::new();
    let mut i: usize = 0;
    while i < n
        invariant
            n == op@.entries.len(),
            is_square(op@.entries),
            n == s@.amplitudes.len(),
            i <= n,
            out@.len() == i,
            forall|j: int| 0 <= j < i ==> #[trigger] dot_fits(op@.entries[j], s@.amplitudes),
            forall|j: int|
                0 <= j < i ==> #[trigger] out@[j] as int == dot(
                    op@.entries[j],
                    s@.amplitudes,
                    s@.amplitudes.len(),
                ),
        decreases n - i,
    {
        assert(op@.entries[i as int] == ints(op.entries@[i as int]@));
        match dot_row(&op.entries[i], &s.amplitudes) {
            None => {
                return None;
            },
            Some(x) => {
                out.push(x);
            },
        }
        i += 1;
    }
    let product = StateVector { amplitudes: out, scale: op.scale + s.scale };
    assert(product@.amplitudes =~= matvec(op@.entries, s@.amplitudes));
    proof {
        lemma_reduce_len(product@);
        lemma_reduce_canonical(product@);
    }
    Some(reduce_state(product))
}

} // verus!
