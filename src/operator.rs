//! Square operator matrices and their Kronecker product.
use vstd::arithmetic::div_mod::{
    lemma_fundamental_div_mod, lemma_mod_pos_bound, lemma_multiply_divide_lt,
};
use vstd::prelude::*;

use crate::circuit::QCircuit;

verus! {

/// The integers that a row of machine integers stands for.
pub open spec fn ints(v: Seq<i64>) -> Seq<int> {
    v.map_values(|x: i64| x as int)
}

/// Whether an integer fits in an `i64`.
pub open spec fn in_i64(x: int) -> bool {
    i64::MIN <= x <= i64::MAX
}

/// Mathematical model of an operator: entry `(r, c)` stands for
/// `entries[r][c] / sqrt(2)^scale`.
pub struct OperatorModel {
    pub entries: Seq<Seq<int>>,
    pub scale: nat,
}

/// A matrix of integer entries with a common scale: entry `(r, c)` stands for
/// `entries[r][c] / sqrt(2)^scale`.
pub struct Operator {
    pub entries: Vec<Vec<i64>>,
    pub scale: u32,
}

impl View for Operator {
    type V = OperatorModel;

    open spec fn view(&self) -> OperatorModel {
        OperatorModel {
            entries: self.entries@.map_values(|row: Vec<i64>| ints(row@)),
            scale: self.scale as nat,
        }
    }
}

/// Every row has as many entries as there are rows.
pub open spec fn is_square(m: Seq<Seq<int>>) -> bool {
    forall|i: int| 0 <= i < m.len() ==> #[trigger] m[i].len() == m.len()
}

/// Every entry is -1, 0 or 1.
pub open spec fn unit_entries(m: Seq<Seq<int>>) -> bool {
    forall|i: int, j: int|
        0 <= i < m.len() && 0 <= j < m[i].len() ==> -1 <= #[trigger] m[i][j] <= 1
}

/// The `n` by `n` identity matrix.
pub open spec fn identity_entries(n: nat) -> Seq<Seq<int>> {
    Seq::new(n, |r: int| Seq::new(n, |c: int| if r == c { 1int } else { 0int }))
}

/// The Kronecker product: an `a.len()` by `a.len()` grid of blocks, the block at
/// `(i, j)` being `b` scaled by `a[i][j]`.
pub open spec fn kron_entries(a: Seq<Seq<int>>, b: Seq<Seq<int>>) -> Seq<Seq<int>> {
    let n = a.len() * b.len();
    let d = b.len() as int;
    Seq::new(n, |r: int| Seq::new(n, |c: int| a[r / d][c / d] * b[r % d][c % d]))
}

/// The Kronecker product of two scaled operators; the scales add.
pub open spec fn kron_model(a: OperatorModel, b: OperatorModel) -> OperatorModel {
    OperatorModel { entries: kron_entries(a.entries, b.entries), scale: a.scale + b.scale }
}

/// Every product of an entry of `a` with an entry of `b` fits in an `i64`.
pub open spec fn products_fit(a: Seq<Seq<int>>, b: Seq<Seq<int>>) -> bool {
    forall|i: int, j: int, k: int, l: int|
        0 <= i < a.len() && 0 <= j < a.len() && 0 <= k < b.len() && 0 <= l < b.len()
            ==> in_i64(#[trigger] a[i][j] * #[trigger] b[k][l])
}

/// Elementwise sum of two operators of one shape and one scale.
pub open spec fn sum_model(a: OperatorModel, b: OperatorModel) -> OperatorModel {
    OperatorModel {
        entries: Seq::new(
            a.entries.len(),
            |r: int| Seq::new(a.entries[r].len(), |c: int| a.entries[r][c] + b.entries[r][c]),
        ),
        scale: a.scale,
    }
}

/// The fixed 2 by 2 building blocks of the gates.
#[derive(Clone, Copy, Debug, PartialEq, Eq, Structural)]
pub enum Block {
    Identity,
    PauliX,
    PauliZ,
    /// `[[1, 1], [1, -1]] / sqrt(2)`
    Hadamard,
    /// Projector onto basis state 0.
    Proj0,
    /// Projector onto basis state 1.
    Proj1,
}

/// The 2 by 2 matrix `[[a, b], [c, d]]`.
pub open spec fn two_by_two(a: int, b: int, c: int, d: int) -> Seq<Seq<int>> {
    seq![seq![a, b], seq![c, d]]
}

/// The entries and scale of each building block.
pub open spec fn block_model(k: Block) -> OperatorModel {
    match k {
        Block::Identity => OperatorModel { entries: two_by_two(1, 0, 0, 1), scale: 0 },
        Block::PauliX => OperatorModel { entries: two_by_two(0, 1, 1, 0), scale: 0 },
        Block::PauliZ => OperatorModel { entries: two_by_two(1, 0, 0, -1), scale: 0 },
        Block::Hadamard => OperatorModel { entries: two_by_two(1, 1, 1, -1), scale: 1 },
        Block::Proj0 => OperatorModel { entries: two_by_two(1, 0, 0, 0), scale: 0 },
        Block::Proj1 => OperatorModel { entries: two_by_two(0, 0, 0, 1), scale: 0 },
    }
}

fn two_by_two_operator(a: i64, b: i64, c: i64, d: i64, scale: u32) -> (op: Operator)
    ensures
        op@.entries == two_by_two(a as int, b as int, c as int, d as int),
        op@.scale == scale,
{
    let mut top: Vec<i64> = Vec::new();
    top.push(a);
    top.push(b);
    let mut bottom: Vec<i64> = Vec::new();
    bottom.push(c);
    bottom.push(d);
    let mut entries: Vec<Vec<i64>> = Vec::new();
    entries.push(top);
    entries.push(bottom);
    let op = Operator { entries, scale };
    assert(op@.entries =~~= two_by_two(a as int, b as int, c as int, d as int));
    op
}

/// Builds the operator of a building block.
pub fn block_operator(k: Block) -> (op: Operator)
    ensures
        op@ == block_model(k),
{
    match k {
        Block::Identity => two_by_two_operator(1, 0, 0, 1, 0),
        Block::PauliX => two_by_two_operator(0, 1, 1, 0, 0),
        Block::PauliZ => two_by_two_operator(1, 0, 0, -1, 0),
        Block::Hadamard => two_by_two_operator(1, 1, 1, -1, 1),
        Block::Proj0 => two_by_two_operator(1, 0, 0, 0, 0),
        Block::Proj1 => two_by_two_operator(0, 0, 0, 1, 0),
    }
}

/// A row index of a Kronecker product splits into a row of each factor.
pub proof fn lemma_split_index(r: int, da: int, db: int)
    requires
        0 <= r < da * db,
        0 < db,
    ensures
        0 <= r / db < da,
        0 <= r % db < db,
{
    assert(da * db == db * da) by (nonlinear_arith);
    lemma_multiply_divide_lt(r, db, da);
    lemma_mod_pos_bound(r, db);
    assert(0 <= r / db) by (nonlinear_arith)
        requires
            0 <= r,
            0 < db,
    ;
}

/// The Kronecker product of matrices of unit entries has unit entries.
pub proof fn lemma_kron_units(a: Seq<Seq<int>>, b: Seq<Seq<int>>)
    requires
        is_square(a),
        is_square(b),
        unit_entries(a),
        unit_entries(b),
    ensures
        unit_entries(kron_entries(a, b)),
        products_fit(a, b),
{
    let k = kron_entries(a, b);
    let d = b.len() as int;
    assert forall|r: int, c: int| 0 <= r < k.len() && 0 <= c < k[r].len() implies -1 <= #[trigger] k[r][c] <= 1 by {
        lemma_split_index(r, a.len() as int, d);
        lemma_split_index(c, a.len() as int, d);
        let x = a[r / d][c / d];
        let y = b[r % d][c % d];
        assert(-1 <= x * y <= 1) by (nonlinear_arith)
            requires
                -1 <= x <= 1,
                -1 <= y <= 1,
        ;
    }
    assert forall|i: int, j: int, k2: int, l: int|
        0 <= i < a.len() && 0 <= j < a.len() && 0 <= k2 < b.len() && 0 <= l < b.len()
        implies in_i64(#[trigger] a[i][j] * #[trigger] b[k2][l]) by {
        let x = a[i][j];
        let y = b[k2][l];
        assert(-1 <= x * y <= 1) by (nonlinear_arith)
            requires
                -1 <= x <= 1,
                -1 <= y <= 1,
        ;
    }
}

/// Every elementwise sum of two matrices of one shape fits in an `i64`.
pub open spec fn sums_fit(a: Seq<Seq<int>>, b: Seq<Seq<int>>) -> bool {
    forall|i: int, j: int|
        0 <= i < a.len() && 0 <= j < a[i].len() ==> in_i64(#[trigger] a[i][j] + b[i][j])
}

/// Elementwise sum of two square operators of one size and one scale.
pub fn add_operators(a: &Operator, b: &Operator) -> (out: Operator)
    requires
        is_square(a@.entries),
        is_square(b@.entries),
        a@.entries.len() == b@.entries.len(),
        a@.scale == b@.scale,
        sums_fit(a@.entries, b@.entries),
    ensures
        out@ == sum_model(a@, b@),
{
    let n = a.entries.len();
    let ghost want = sum_model(a@, b@).entries;
    let mut rows: Vec<Vec<i64>> = Vec::new();
    let mut r: usize = 0;
    while r < n
        invariant
            n == a@.entries.len(),
            n == b@.entries.len(),
            is_square(a@.entries),
            is_square(b@.entries),
            sums_fit(a@.entries, b@.entries),
            want == sum_model(a@, b@).entries,
            r <= n,
            rows@.len() == r,
            forall|i: int| 0 <= i < r ==> #[trigger] ints(rows@[i]@) == want[i],
        decreases n - r,
    {
        assert(a@.entries[r as int] == ints(a.entries@[r as int]@));
        assert(b@.entries[r as int] == ints(b.entries@[r as int]@));
        assert(a@.entries[r as int].len() == n);
        assert(b@.entries[r as int].len() == n);
        let mut row: Vec<i64> = Vec::new();
        let mut c: usize = 0;
        while c < n
            invariant
                n == a@.entries.len(),
                n == b@.entries.len(),
                a@.entries[r as int] == ints(a.entries@[r as int]@),
                b@.entries[r as int] == ints(b.entries@[r as int]@),
                a@.entries[r as int].len() == n,
                b@.entries[r as int].len() == n,
                sums_fit(a@.entries, b@.entries),
                want == sum_model(a@, b@).entries,
                r < n,
                c <= n,
                row@.len() == c,
                forall|j: int| 0 <= j < c ==> #[trigger] row@[j] as int == want[r as int][j],
            decreases n - c,
        {
            let x = a.entries[r][c];
            let y = b.entries[r][c];
            assert(in_i64(a@.entries[r as int][c as int] + b@.entries[r as int][c as int]));
            row.push(x + y);
            c += 1;
        }
        assert(ints(row@) =~= want[r as int]);
        rows.push(row);
        r += 1;
    }
    let out = Operator { entries: rows, scale: a.scale };
    assert(out@.entries =~= want);
    out
}

/// The Kronecker product of an `a` by `a` identity and a `b` by `b` identity is
/// the `a * b` by `a * b` identity.
pub proof fn lemma_kron_identity(a: nat, b: nat)
    ensures
        kron_entries(identity_entries(a), identity_entries(b)) == identity_entries(a * b),
{
    let k = kron_entries(identity_entries(a), identity_entries(b));
    let id = identity_entries(a * b);
    if b == 0 {
        assert(a * b == 0) by (nonlinear_arith)
            requires
                b == 0,
        ;
        assert(k =~= id);
    } else {
        let d = b as int;
        assert forall|r: int| 0 <= r < k.len() implies #[trigger] k[r] =~= id[r] by {
            lemma_split_index(r, a as int, d);
            lemma_fundamental_div_mod(r, d);
            assert forall|c: int| 0 <= c < k[r].len() implies #[trigger] k[r][c] == id[r][c] by {
                lemma_split_index(c, a as int, d);
                lemma_fundamental_div_mod(c, d);
                if r / d == c / d && r % d == c % d {
                    assert(r == c);
                } else {
                    assert(r != c);
                }
            }
        }
        assert(k =~= id);
    }
}

impl QCircuit {
    /// The Kronecker product of two square operators; the scales add.
    pub fn kron(a: &Operator, b: &Operator) -> (out: Operator)
        requires
            is_square(a@.entries),
            is_square(b@.entries),
            a@.entries.len() * b@.entries.len() <= usize::MAX,
            a@.scale + b@.scale <= u32::MAX,
            products_fit(a@.entries, b@.entries),
        ensures
            out@ == kron_model(a@, b@),
    {
        let da = a.entries.len();
        let db = b.entries.len();
        let n = da * db;
        let ghost ka = a@.entries;
        let ghost kb = b@.entries;
        let ghost want = kron_entries(ka, kb);
        let mut rows: Vec<Vec<i64>> = Vec::new();
        let mut r: usize = 0;
        while r < n
            invariant
                n == da * db,
                da == ka.len(),
                db == kb.len(),
                ka == a@.entries,
                kb == b@.entries,
                is_square(ka),
                is_square(kb),
                products_fit(ka, kb),
                want == kron_entries(ka, kb),
                r <= n,
                rows@.len() == r,
                forall|i: int| 0 <= i < r ==> #[trigger] ints(rows@[i]@) == want[i],
            decreases n - r,
        {
            proof {
                lemma_split_index(r as int, da as int, db as int);
            }
            let ra = r / db;
            let rb = r % db;
            let mut row: Vec<i64> = Vec::new();
            let mut c: usize = 0;
            while c < n
                invariant
                    n == da * db,
                    da == ka.len(),
                    db == kb.len(),
                    ka == a@.entries,
                    kb == b@.entries,
                    is_square(ka),
                    is_square(kb),
                    products_fit(ka, kb),
                    want == kron_entries(ka, kb),
                    r < n,
                    ra == r / db,
                    rb == r % db,
                    ra < da,
                    rb < db,
                    c <= n,
                    row@.len() == c,
                    forall|j: int| 0 <= j < c ==> #[trigger] row@[j] as int == want[r as int][j],
                decreases n - c,
            {
                proof {
                    lemma_split_index(c as int, da as int, db as int);
                }
                assert(ka[ra as int] == ints(a.entries@[ra as int]@));
                assert(kb[rb as int] == ints(b.entries@[rb as int]@));
                assert(ka[ra as int].len() == da);
                assert(kb[rb as int].len() == db);
                let x = a.entries[ra][c / db];
                let y = b.entries[rb][c % db];
                assert(x as int == ka[ra as int][(c / db) as int]);
                assert(y as int == kb[rb as int][(c % db) as int]);
                assert(in_i64(x * y));
                row.push(x * y);
                c += 1;
            }
            assert(ints(row@) =~= want[r as int]);
            rows.push(row);
            r += 1;
        }
        let out = Operator { entries: rows, scale: a.scale + b.scale };
        assert(out@.entries =~= want);
        out
    }
}

} // verus!
