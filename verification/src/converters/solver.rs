//! Witness solving from R1CS matrices alone, by fixed-point constraint propagation.
use super::r1cs::row_holds;
use super::spartan::{entry_view, matrix_canonical, matrix_view, R1CSMatrix, SpartanInstance};
use crate::field::{bytes_are_canonical, bytes_value, field_order, lemma_le_bytes_value_injective, FieldElement};
use vstd::arithmetic::div_mod::{
    lemma_add_mod_noop, lemma_fundamental_div_mod, lemma_mod_multiples_vanish, lemma_mul_mod_noop,
    lemma_mul_mod_noop_left, lemma_mul_mod_noop_right, lemma_small_mod, lemma_sub_mod_noop,
};
use vstd::prelude::*;

verus! {

/// Errors from the R1CS witness solver.
#[derive(Clone, Copy, Debug, PartialEq, Eq, Structural)]
pub enum WitnessError {
    /// `circuit_inputs` length doesn't match `num_inputs - num_outputs`.
    InvalidInputs { expected: usize, got: usize },
    /// Fixed-point iteration stalled before all variables were determined.
    SolverStuck { solved: usize, total: usize },
}

/// Every entry of `m` lies in a row below `num_cons` and a column below `z_len`,
/// with a canonically encoded coefficient.
pub open spec fn matrix_fits(m: Seq<(usize, usize, [u8; 32])>, num_cons: nat, z_len: nat) -> bool {
    &&& matrix_canonical(m)
    &&& forall|k: int| 0 <= k < m.len() ==> (#[trigger] m[k]).0 < num_cons && m[k].1 < z_len
}

/// Width of the z-vector `[vars, 1, public inputs]`.
pub open spec fn instance_width(inst: SpartanInstance) -> nat {
    (inst.num_vars + 1 + inst.num_inputs) as nat
}

/// All three matrices fit the instance's dimensions.
pub open spec fn instance_fits(inst: SpartanInstance) -> bool {
    &&& instance_width(inst) <= usize::MAX
    &&& matrix_fits(inst.A@, inst.num_cons as nat, instance_width(inst))
    &&& matrix_fits(inst.B@, inst.num_cons as nat, instance_width(inst))
    &&& matrix_fits(inst.C@, inst.num_cons as nat, instance_width(inst))
}

/// Every entry of `m` lies in a row below `num_cons`.
pub open spec fn rows_below(m: Seq<(usize, usize, [u8; 32])>, num_cons: nat) -> bool {
    forall|k: int| 0 <= k < m.len() ==> (#[trigger] m[k]).0 < num_cons
}

/// Whether every entry of `m` lies below row `num_cons` and column `z_len` with a
/// canonical coefficient.
fn matrix_fits_check(m: &R1CSMatrix, num_cons: usize, z_len: usize) -> (ok: bool)
    ensures
        ok == matrix_fits(m@, num_cons as nat, z_len as nat),
{
    let mut k: usize = 0;
    while k < m.len()
        invariant
            k <= m.len(),
            forall|j: int|
                0 <= j < k ==> bytes_are_canonical((#[trigger] m@[j]).2) && m@[j].0 < num_cons && m@[j].1 < z_len,
        decreases m.len() - k,
    {
        let (row, col, bytes) = m[k];
        if row >= num_cons || col >= z_len {
            return false;
        }
        match FieldElement::from_canonical_bytes(bytes) {
            Some(_) => {},
            None => {
                return false;
            },
        }
        k = k + 1;
    }
    true
}

/// Whether the three matrices fit the instance's dimensions (`instance_fits`).
pub fn instance_fits_check(inst: &SpartanInstance) -> (ok: bool)
    ensures
        ok == instance_fits(*inst),
{
    let width = match inst.num_vars.checked_add(1) {
        Some(w) => w.checked_add(inst.num_inputs),
        None => None,
    };
    match width {
        Some(w) => matrix_fits_check(&inst.A, inst.num_cons, w) && matrix_fits_check(&inst.B, inst.num_cons, w)
            && matrix_fits_check(&inst.C, inst.num_cons, w),
        None => false,
    }
}

/// The entries of row `r` of `m`, in matrix order, as `(column, coefficient)`.
pub open spec fn row_entries(m: Seq<(usize, usize, [u8; 32])>, r: int) -> Seq<(usize, FieldElement)> {
    m.filter(in_row(r)).map_values(column_and_coefficient())
}

/// Whether an entry lies in row `r`.
pub open spec fn in_row(r: int) -> spec_fn((usize, usize, [u8; 32])) -> bool {
    |e: (usize, usize, [u8; 32])| e.0 == r
}

/// The column and coefficient of an entry.
pub open spec fn column_and_coefficient() -> spec_fn((usize, usize, [u8; 32])) -> (usize, FieldElement) {
    |e: (usize, usize, [u8; 32])| (e.1, FieldElement { bytes: e.2 })
}

/// The circuit inputs sit, solved, at their columns `base + k`.
pub open spec fn inputs_placed(
    z: Seq<FieldElement>,
    solved: Seq<bool>,
    base: int,
    inputs: Seq<FieldElement>,
) -> bool {
    &&& forall|k: int| 0 <= k < inputs.len() ==> z[base + k] == #[trigger] inputs[k]
    &&& forall|k: int| 0 <= k < inputs.len() ==> #[trigger] solved[base + k]
}

/// Number of `false` flags.
pub open spec fn count_unsolved(s: Seq<bool>) -> nat
    decreases s.len(),
{
    if s.len() == 0 {
        0
    } else {
        count_unsolved(s.drop_last()) + if s.last() {
            0nat
        } else {
            1nat
        }
    }
}

pub proof fn lemma_count_unsolved_bounded(s: Seq<bool>)
    ensures
        count_unsolved(s) <= s.len(),
    decreases s.len(),
{
    if s.len() > 0 {
        lemma_count_unsolved_bounded(s.drop_last());
    }
}

/// Marking an unsolved entry as solved decreases the count by one.
pub proof fn lemma_count_unsolved_update(s: Seq<bool>, j: int)
    requires
        0 <= j < s.len(),
        !s[j],
    ensures
        count_unsolved(s.update(j, true)) + 1 == count_unsolved(s),
    decreases s.len(),
{
    let t = s.update(j, true);
    if j == s.len() - 1 {
        assert(t.drop_last() =~= s.drop_last());
    } else {
        assert(t.drop_last() =~= s.drop_last().update(j, true));
        lemma_count_unsolved_update(s.drop_last(), j);
    }
}

pub proof fn lemma_input_placed_at(
    z: Seq<FieldElement>,
    solved: Seq<bool>,
    base: int,
    inputs: Seq<FieldElement>,
    k: int,
)
    requires
        inputs_placed(z, solved, base, inputs),
        0 <= k < inputs.len(),
    ensures
        z[base + k] == inputs[k],
        solved[base + k],
{
    assert(inputs[k] == inputs[k]);
    assert(solved[base + k]);
}

/// Groups the entries of a matrix by row.
pub(crate) fn group_rows(m: &R1CSMatrix, num_cons: usize) -> (rows: Vec<Vec<(usize, FieldElement)>>)
    requires
        forall|k: int| 0 <= k < m@.len() ==> (#[trigger] m@[k]).0 < num_cons,
        matrix_canonical(m@),
    ensures
        rows.len() == num_cons,
        forall|r: int| 0 <= r < num_cons ==> (#[trigger] rows[r])@ == row_entries(m@, r),
{
    let mut rows: Vec<Vec<(usize, FieldElement)>> = Vec::new();
    let mut r: usize = 0;
    while r < num_cons
        invariant
            r <= num_cons,
            rows.len() == r,
            forall|q: int| 0 <= q < r ==> (#[trigger] rows[q])@ == Seq::<(usize, FieldElement)>::empty(),
        decreases num_cons - r,
    {
        rows.push(Vec::new());
        r = r + 1;
    }
    proof {
        assert forall|q: int| 0 <= q < num_cons implies (#[trigger] rows[q])@ == row_entries(
            m@.take(0),
            q,
        ) by {
            assert(m@.take(0) =~= Seq::<(usize, usize, [u8; 32])>::empty());
            reveal_with_fuel(Seq::filter, 1);
            assert(row_entries(m@.take(0), q) =~= Seq::<(usize, FieldElement)>::empty());
        }
    }
    let mut k: usize = 0;
    while k < m.len()
        invariant
            k <= m.len(),
            rows.len() == num_cons,
            forall|q: int| 0 <= q < m@.len() ==> (#[trigger] m@[q]).0 < num_cons,
            forall|q: int| 0 <= q < num_cons ==> (#[trigger] rows[q])@ == row_entries(
                m@.take(k as int),
                q,
            ),
        decreases m.len() - k,
    {
        let (row, col, bytes) = m[k];
        let ghost before = rows@;
        let mut row_vec: Vec<(usize, FieldElement)> = Vec::new();
        std::mem::swap(&mut row_vec, &mut rows[row]);
        row_vec.push((col, FieldElement { bytes }));
        rows.set(row, row_vec);
        proof {
            let p = m@.take(k + 1);
            assert(p.drop_last() =~= m@.take(k as int));
            reveal_with_fuel(Seq::filter, 1);
            assert forall|q: int| 0 <= q < num_cons implies (#[trigger] rows[q])@ == row_entries(
                p,
                q,
            ) by {
                let f = in_row(q);
                let g = column_and_coefficient();
                assert(p.filter(f) == if f(p.last()) {
                    p.drop_last().filter(f).push(p.last())
                } else {
                    p.drop_last().filter(f)
                });
                if q == row {
                    assert(p.drop_last().filter(f).push(p.last()).map_values(g) =~= p.drop_last().filter(
                        f,
                    ).map_values(g).push(g(p.last())));
                }
            }
        }
        k = k + 1;
    }
    proof {
        assert(m@.take(k as int) =~= m@);
    }
    rows
}

/// The unique unsolved column among the entries of a row, if there is exactly one.
pub open spec fn unique_unsolved(
    a: Seq<(usize, FieldElement)>,
    b: Seq<(usize, FieldElement)>,
    c: Seq<(usize, FieldElement)>,
    solved: Seq<bool>,
    j: usize,
) -> bool {
    let all = a + b + c;
    &&& exists|k: int| 0 <= k < all.len() && all[k].0 == j
    &&& !solved[j as int]
    &&& forall|k: int| 0 <= k < all.len() && !solved[(#[trigger] all[k]).0 as int] ==> all[k].0 == j
}

/// Finds the unique unsolved column of a row: `Some(j)` when every unsolved column
/// of the row is `j`, `None` when the row has no unsolved column or several.
fn find_unsolved(
    a: &Vec<(usize, FieldElement)>,
    b: &Vec<(usize, FieldElement)>,
    c: &Vec<(usize, FieldElement)>,
    solved: &Vec<bool>,
) -> (res: Option<usize>)
    requires
        a@.len() + b@.len() + c@.len() <= usize::MAX,
        forall|k: int| 0 <= k < a@.len() ==> (#[trigger] a@[k]).0 < solved.len(),
        forall|k: int| 0 <= k < b@.len() ==> (#[trigger] b@[k]).0 < solved.len(),
        forall|k: int| 0 <= k < c@.len() ==> (#[trigger] c@[k]).0 < solved.len(),
    ensures
        res matches Some(j) ==> unique_unsolved(a@, b@, c@, solved@, j),
        res is None ==> forall|j: usize| !unique_unsolved(a@, b@, c@, solved@, j),
{
    let ghost all = a@ + b@ + c@;
    let mut found: Option<usize> = None;
    let mut k: usize = 0;
    let total = a.len() + b.len() + c.len();
    while k < total
        invariant
            total == all.len(),
            all == a@ + b@ + c@,
            k <= total,
            forall|q: int| 0 <= q < all.len() ==> (#[trigger] all[q]).0 < solved.len(),
            found matches Some(j) ==> {
                &&& exists|q: int| 0 <= q < k && all[q].0 == j
                &&& !solved[j as int]
                &&& forall|q: int| 0 <= q < k && !solved[(#[trigger] all[q]).0 as int] ==> all[q].0 == j
            },
            found is None ==> forall|q: int| 0 <= q < k ==> solved[(#[trigger] all[q]).0 as int],
        decreases total - k,
    {
        let col = if k < a.len() {
            a[k].0
        } else if k < a.len() + b.len() {
            b[k - a.len()].0
        } else {
            c[k - a.len() - b.len()].0
        };
        assert(all[k as int].0 == col);
        if !solved[col] {
            match found {
                None => {
                    found = Some(col);
                },
                Some(prev) => {
                    if prev != col {
                        proof {
                            assert forall|j: usize| !unique_unsolved(a@, b@, c@, solved@, j) by {
                                let w = choose|q: int| 0 <= q < k && all[q].0 == prev;
                                if unique_unsolved(a@, b@, c@, solved@, j) {
                                    assert(all[w].0 == j);
                                    assert(all[k as int].0 == j);
                                }
                            }
                        }
                        return None;
                    }
                },
            }
        }
        k = k + 1;
    }
    proof {
        if found is None {
            assert forall|j: usize| !unique_unsolved(a@, b@, c@, solved@, j) by {
                if unique_unsolved(a@, b@, c@, solved@, j) {
                    let w = choose|q: int| 0 <= q < all.len() && all[q].0 == j;
                    assert(solved[all[w].0 as int]);
                }
            }
        }
    }
    found
}

/// Values of a z-vector as integers.
pub open spec fn z_values(z: Seq<FieldElement>) -> Seq<int> {
    z.map_values(|e: FieldElement| e.value() as int)
}

/// `Σ coefficient · z[column]` over the entries whose column is not `j`.
pub open spec fn sum_except(entries: Seq<(usize, FieldElement)>, j: usize, z: Seq<int>) -> int
    decreases entries.len(),
{
    if entries.len() == 0 {
        0
    } else {
        sum_except(entries.drop_last(), j, z) + if entries.last().0 != j {
            entries.last().1.value() * z[entries.last().0 as int]
        } else {
            0
        }
    }
}

/// `Σ coefficient` over the entries at column `j`.
pub open spec fn sum_at(entries: Seq<(usize, FieldElement)>, j: usize) -> int
    decreases entries.len(),
{
    if entries.len() == 0 {
        0
    } else {
        sum_at(entries.drop_last(), j) + if entries.last().0 == j {
            entries.last().1.value() as int
        } else {
            0
        }
    }
}

/// Denominator of the solving step for column `j`:
/// `a_j · B_known + b_j · A_known − c_j`.
pub open spec fn step_denominator(
    a: Seq<(usize, FieldElement)>,
    b: Seq<(usize, FieldElement)>,
    c: Seq<(usize, FieldElement)>,
    j: usize,
    z: Seq<int>,
) -> int {
    sum_at(a, j) * sum_except(b, j, z) + sum_at(b, j) * sum_except(a, j, z) - sum_at(c, j)
}

/// Numerator of the solving step for column `j`: `C_known − A_known · B_known`.
pub open spec fn step_numerator(
    a: Seq<(usize, FieldElement)>,
    b: Seq<(usize, FieldElement)>,
    c: Seq<(usize, FieldElement)>,
    j: usize,
    z: Seq<int>,
) -> int {
    sum_except(c, j, z) - sum_except(a, j, z) * sum_except(b, j, z)
}

/// Row `r` determines column `j` in the solver's state: `j` is the row's only
/// unsolved column and the denominator of its step is nonzero.
pub open spec fn row_determines(inst: SpartanInstance, r: int, s: Seq<bool>, z: Seq<int>, j: usize) -> bool {
    let a = row_entries(inst.A@, r);
    let b = row_entries(inst.B@, r);
    let c = row_entries(inst.C@, r);
    &&& unique_unsolved(a, b, c, s, j)
    &&& step_denominator(a, b, c, j, z) % (field_order() as int) != 0
}

/// The value `v` solves row `r` for column `j`: `v · denominator ≡ numerator`
/// (mod ℓ), the denominator and numerator of the step taken in `z`.
pub open spec fn step_value_ok(inst: SpartanInstance, r: int, z: Seq<int>, j: usize, v: int) -> bool {
    let a = row_entries(inst.A@, r);
    let b = row_entries(inst.B@, r);
    let c = row_entries(inst.C@, r);
    (v * step_denominator(a, b, c, j, z)) % (field_order() as int) == step_numerator(a, b, c, j, z) % (
    field_order() as int)
}

/// One step of the solver from `(z1, s1)` to `(z2, s2)`: a row determines column
/// `j`, which gets the canonical value that solves the row and is marked solved.
pub open spec fn solver_step(
    inst: SpartanInstance,
    z1: Seq<FieldElement>,
    s1: Seq<bool>,
    z2: Seq<FieldElement>,
    s2: Seq<bool>,
) -> bool {
    exists|r: int, j: usize|
        #![trigger row_determines(inst, r, s1, z_values(z1), j)]
        0 <= r < inst.num_cons && j < z1.len() && row_determines(inst, r, s1, z_values(z1), j) && z2
            == z1.update(j as int, z2[j as int]) && z2[j as int].is_canonical() && step_value_ok(
            inst,
            r,
            z_values(z1),
            j,
            z2[j as int].value() as int,
        ) && s2 == s1.update(j as int, true)
}

/// The solver's starting state: the constant 1 and the circuit inputs in place and
/// marked solved, nothing else solved, every value canonical.
pub open spec fn solver_start(
    inst: SpartanInstance,
    num_outputs: nat,
    inputs: Seq<FieldElement>,
    z: Seq<FieldElement>,
    s: Seq<bool>,
) -> bool {
    &&& z.len() == instance_width(inst)
    &&& s.len() == z.len()
    &&& forall|c: int| 0 <= c < z.len() ==> (#[trigger] z[c]).is_canonical()
    &&& s[inst.num_vars as int]
    &&& z[inst.num_vars as int].value() == 1
    &&& inputs_placed(z, s, inst.num_vars + 1 + num_outputs, inputs)
    &&& forall|c: int|
        0 <= c < s.len() && #[trigger] s[c] ==> c == inst.num_vars || inst.num_vars + 1 + num_outputs <= c
            < inst.num_vars + 1 + num_outputs + inputs.len()
}

/// A run of the solver: a sequence of states from its start, each reached from the
/// previous one by one step.
pub open spec fn solver_run(
    inst: SpartanInstance,
    num_outputs: nat,
    inputs: Seq<FieldElement>,
    states: Seq<(Seq<FieldElement>, Seq<bool>)>,
) -> bool {
    &&& states.len() >= 1
    &&& solver_start(inst, num_outputs, inputs, states[0].0, states[0].1)
    &&& forall|k: int|
        0 <= k < states.len() - 1 ==> #[trigger] solver_step(
            inst,
            states[k].0,
            states[k].1,
            states[k + 1].0,
            states[k + 1].1,
        )
}

/// Every private variable and every output is solved.
pub open spec fn all_unknowns_solved(inst: SpartanInstance, num_outputs: nat, s: Seq<bool>) -> bool {
    forall|c: int| unknown_column(inst, num_outputs, c) ==> #[trigger] s[c]
}

/// A column that the solver must determine: a private variable or an output.
pub open spec fn unknown_column(inst: SpartanInstance, num_outputs: nat, c: int) -> bool {
    0 <= c < inst.num_vars || inst.num_vars + 1 <= c < inst.num_vars + 1 + num_outputs
}

/// A state in which the solver stops without a full solution: the constant and the
/// circuit inputs are in place, some unknown column is unsolved, and no row
/// determines any column.
pub open spec fn stalled(
    inst: SpartanInstance,
    num_outputs: nat,
    inputs: Seq<FieldElement>,
    z: Seq<FieldElement>,
    s: Seq<bool>,
) -> bool {
    &&& z.len() == instance_width(inst)
    &&& s.len() == z.len()
    &&& forall|c: int| 0 <= c < z.len() ==> (#[trigger] z[c]).is_canonical()
    &&& s[inst.num_vars as int]
    &&& z[inst.num_vars as int].value() == 1
    &&& inputs_placed(z, s, inst.num_vars + 1 + num_outputs, inputs)
    &&& exists|c: int| unknown_column(inst, num_outputs, c) && !#[trigger] s[c]
    &&& forall|r: int, j: usize| 0 <= r < inst.num_cons ==> !#[trigger] row_determines(inst, r, s, z_values(z), j)
}

/// `Σ coefficient` at column `j` over the entries of row `r`.
pub open spec fn col_coeff(m: Seq<(int, int, nat)>, r: int, j: int) -> int
    decreases m.len(),
{
    if m.len() == 0 {
        0
    } else {
        col_coeff(m.drop_last(), r, j) + if m.last().0 == r && m.last().1 == j {
            m.last().2 as int
        } else {
            0
        }
    }
}

/// `Σ coefficient · z[column]` over the entries of row `r` at columns other than `j`.
pub open spec fn dot_except(m: Seq<(int, int, nat)>, r: int, j: int, z: Seq<int>) -> int
    decreases m.len(),
{
    if m.len() == 0 {
        0
    } else {
        dot_except(m.drop_last(), r, j, z) + if m.last().0 == r && m.last().1 != j {
            m.last().2 * z[m.last().1]
        } else {
            0
        }
    }
}

/// Every entry of row `r` sits at column `j`.
pub open spec fn row_only_at(m: Seq<(int, int, nat)>, r: int, j: int) -> bool {
    forall|k: int| 0 <= k < m.len() && (#[trigger] m[k]).0 == r ==> m[k].1 == j
}

/// Row `r` is linear in column `j`: `j` does not occur in both A and B with a
/// nonzero product of coefficients, unless A and B hold nothing but `j` and C does
/// not hold it (then the solver never solves `j` from this row).
pub open spec fn row_linear_at(
    a: Seq<(int, int, nat)>,
    b: Seq<(int, int, nat)>,
    c: Seq<(int, int, nat)>,
    r: int,
    j: int,
) -> bool {
    ||| (col_coeff(a, r, j) * col_coeff(b, r, j)) % (field_order() as int) == 0
    ||| row_only_at(a, r, j) && row_only_at(b, r, j) && col_coeff(c, r, j) % (field_order() as int) == 0
}

/// Every row of the instance is linear in every column.
pub open spec fn rows_linear(inst: SpartanInstance) -> bool {
    forall|r: int, j: int|
        0 <= r < inst.num_cons ==> #[trigger] row_linear_at(
            matrix_view(inst.A@),
            matrix_view(inst.B@),
            matrix_view(inst.C@),
            r,
            j,
        )
}

/// A full assignment that satisfies every row, with the constant 1 and the given
/// circuit inputs in place.
pub open spec fn is_reference(
    inst: SpartanInstance,
    num_outputs: nat,
    inputs: Seq<FieldElement>,
    zr: Seq<int>,
) -> bool {
    &&& zr.len() == instance_width(inst)
    &&& num_outputs + inputs.len() <= inst.num_inputs
    &&& forall|c: int| 0 <= c < zr.len() ==> 0 <= #[trigger] zr[c] < field_order()
    &&& zr[inst.num_vars as int] == 1
    &&& forall|k: int|
        0 <= k < inputs.len() ==> zr[inst.num_vars + 1 + num_outputs + k] == (#[trigger] inputs[k]).value()
    &&& forall|r: int|
        0 <= r < inst.num_cons ==> #[trigger] row_holds(
            matrix_view(inst.A@),
            matrix_view(inst.B@),
            matrix_view(inst.C@),
            r,
            zr,
        )
}

/// The solved columns of `z` hold the values of `zr`.
pub open spec fn agrees(z: Seq<FieldElement>, s: Seq<bool>, zr: Seq<int>) -> bool {
    forall|c: int| 0 <= c < z.len() && #[trigger] s[c] ==> z[c].value() == zr[c]
}

/// The linear step is exact: when `(a_j·B + b_j·A − c_j)·inv ≡ 1`, the row holds at
/// `z_j` and `a_j·b_j ≡ 0`, then `(C − A·B)·inv ≡ z_j`.
pub proof fn lemma_step_value(
    p: int,
    ak: int,
    bk: int,
    ck: int,
    aj: int,
    bj: int,
    cj: int,
    zj: int,
    inv: int,
)
    requires
        p > 0,
        ((ak + aj * zj) * (bk + bj * zj) - (ck + cj * zj)) % p == 0,
        (aj * bj) % p == 0,
        ((aj * bk + bj * ak - cj) * inv) % p == 1,
        0 <= zj < p,
    ensures
        ((ck - ak * bk) * inv) % p == zj,
{
    let e = (ak + aj * zj) * (bk + bj * zj) - (ck + cj * zj);
    let d = aj * bk + bj * ak - cj;
    let n = ck - ak * bk;
    lemma_fundamental_div_mod(e, p);
    lemma_fundamental_div_mod(aj * bj, p);
    lemma_fundamental_div_mod(d * inv, p);
    let q1 = e / p;
    let q2 = (aj * bj) / p;
    let q3 = (d * inv) / p;
    let x = aj * zj;
    let y = bj * zj;
    assert((ak + x) * (bk + y) == ak * bk + ak * y + x * bk + x * y) by (nonlinear_arith);
    assert(ak * y == (bj * ak) * zj) by (nonlinear_arith)
        requires
            y == bj * zj,
    ;
    assert(x * bk == (aj * bk) * zj) by (nonlinear_arith)
        requires
            x == aj * zj,
    ;
    assert(x * y == (aj * bj) * (zj * zj)) by (nonlinear_arith)
        requires
            x == aj * zj,
            y == bj * zj,
    ;
    assert(d * zj == (aj * bk) * zj + (bj * ak) * zj - cj * zj) by (nonlinear_arith)
        requires
            d == aj * bk + bj * ak - cj,
    ;
    assert(n == d * zj + (aj * bj) * (zj * zj) - e);
    let w = zj * zj;
    assert((aj * bj) * w == p * (q2 * w)) by (nonlinear_arith)
        requires
            aj * bj == p * q2,
    ;
    assert(n == d * zj + p * (q2 * w) - p * q1);
    let t1 = d * zj;
    let t2 = p * (q2 * w);
    let t3 = p * q1;
    assert((t1 + t2 - t3) * inv == t1 * inv + t2 * inv - t3 * inv) by (nonlinear_arith);
    assert(t1 * inv == (d * inv) * zj) by (nonlinear_arith)
        requires
            t1 == d * zj,
    ;
    assert(t2 * inv == p * ((q2 * w) * inv)) by (nonlinear_arith)
        requires
            t2 == p * (q2 * w),
    ;
    assert(t3 * inv == p * (q1 * inv)) by (nonlinear_arith)
        requires
            t3 == p * q1,
    ;
    assert(n * inv == (d * inv) * zj + p * ((q2 * w) * inv) - p * (q1 * inv));
    assert((d * inv) * zj == p * (q3 * zj) + zj) by (nonlinear_arith)
        requires
            d * inv == p * q3 + 1,
    ;
    assert(p * (q3 * zj) + p * ((q2 * w) * inv) - p * (q1 * inv) == p * (zj * q3 + (q2 * (zj * zj) - q1) * inv)) by (nonlinear_arith)
        requires
            w == zj * zj,
    ;
    assert(n * inv == p * (zj * q3 + (q2 * (zj * zj) - q1) * inv) + zj);
    lemma_mod_multiples_vanish(zj * q3 + (q2 * (zj * zj) - q1) * inv, zj, p);
    lemma_small_mod(zj as nat, p as nat);
}

/// A row's dot product splits at column `j`.
pub proof fn lemma_row_dot_split(m: Seq<(int, int, nat)>, r: int, j: int, z: Seq<int>)
    ensures
        super::r1cs::row_dot(m, r, z) == dot_except(m, r, j, z) + col_coeff(m, r, j) * z[j],
    decreases m.len(),
{
    if m.len() > 0 {
        lemma_row_dot_split(m.drop_last(), r, j, z);
        let cc = col_coeff(m.drop_last(), r, j);
        let e = m.last();
        if e.0 == r && e.1 == j {
            assert((cc + e.2) * z[j] == cc * z[j] + e.2 * z[j]) by (nonlinear_arith);
        }
    }
}

/// The solver's per-row sums are the sums over row `r` of the matrix's entries.
pub proof fn lemma_entry_sums(m: Seq<(usize, usize, [u8; 32])>, r: int, j: usize, z: Seq<int>)
    ensures
        sum_except(row_entries(m, r), j, z) == dot_except(matrix_view(m), r, j as int, z),
        sum_at(row_entries(m, r), j) == col_coeff(matrix_view(m), r, j as int),
    decreases m.len(),
{
    if m.len() > 0 {
        let prev = m.drop_last();
        let e = m.last();
        lemma_entry_sums(prev, r, j, z);
        assert(matrix_view(m).drop_last() =~= matrix_view(prev));
        assert(matrix_view(m).last() == entry_view(e));
        reveal_with_fuel(Seq::filter, 1);
        assert(m.filter(in_row(r)) == if in_row(r)(e) {
            prev.filter(in_row(r)).push(e)
        } else {
            prev.filter(in_row(r))
        }) by {
            assert(m.drop_last() == prev);
        }
        if e.0 == r {
            let pe = row_entries(prev, r);
            assert(row_entries(m, r) =~= pe.push((e.1, FieldElement { bytes: e.2 })));
            assert(row_entries(m, r).drop_last() =~= pe);
            assert(FieldElement { bytes: e.2 }.value() == bytes_value(e.2));
        } else {
            assert(row_entries(m, r) =~= row_entries(prev, r));
        }
    }
}

/// When every entry of row `r` sits at column `j`, the other columns contribute
/// nothing.
pub proof fn lemma_only_at_zero(m: Seq<(int, int, nat)>, r: int, j: int, z: Seq<int>)
    requires
        row_only_at(m, r, j),
    ensures
        dot_except(m, r, j, z) == 0,
    decreases m.len(),
{
    if m.len() > 0 {
        assert forall|k: int| 0 <= k < m.drop_last().len() && (#[trigger] m.drop_last()[k]).0 == r implies m.drop_last()[k].1 == j by {
            assert(m.drop_last()[k] == m[k]);
        }
        lemma_only_at_zero(m.drop_last(), r, j, z);
        assert(m.last() == m[m.len() - 1]);
    }
}

/// The sum over the columns other than `j` only reads those columns.
pub proof fn lemma_sums_agree(entries: Seq<(usize, FieldElement)>, j: usize, z1: Seq<int>, z2: Seq<int>)
    requires
        forall|k: int|
            0 <= k < entries.len() && (#[trigger] entries[k]).0 != j ==> z1[entries[k].0 as int] == z2[entries[k].0 as int],
    ensures
        sum_except(entries, j, z1) == sum_except(entries, j, z2),
    decreases entries.len(),
{
    if entries.len() > 0 {
        assert forall|k: int|
            0 <= k < entries.drop_last().len() && (#[trigger] entries.drop_last()[k]).0 != j implies z1[entries.drop_last()[k].0 as int]
                == z2[entries.drop_last()[k].0 as int] by {
            assert(entries.drop_last()[k] == entries[k]);
        }
        lemma_sums_agree(entries.drop_last(), j, z1, z2);
        assert(entries.last() == entries[entries.len() - 1]);
    }
}

/// A solving step is sound: when row `r` has column `j` as its only unsolved column
/// and the solved columns hold the values of a reference assignment, the value the
/// step computes for `j` is the reference value.
pub proof fn lemma_step_sound(
    inst: SpartanInstance,
    num_outputs: nat,
    inputs: Seq<FieldElement>,
    zr: Seq<int>,
    z: Seq<FieldElement>,
    s: Seq<bool>,
    r: int,
    j: usize,
    inv: int,
)
    requires
        instance_fits(inst),
        0 <= r < inst.num_cons,
        is_reference(inst, num_outputs, inputs, zr),
        rows_linear(inst),
        z.len() == instance_width(inst),
        s.len() == z.len(),
        agrees(z, s, zr),
        j < z.len(),
        unique_unsolved(row_entries(inst.A@, r), row_entries(inst.B@, r), row_entries(inst.C@, r), s, j),
        (step_denominator(
            row_entries(inst.A@, r),
            row_entries(inst.B@, r),
            row_entries(inst.C@, r),
            j,
            z_values(z),
        ) * inv) % (field_order() as int) == 1,
    ensures
        (step_numerator(
            row_entries(inst.A@, r),
            row_entries(inst.B@, r),
            row_entries(inst.C@, r),
            j,
            z_values(z),
        ) * inv) % (field_order() as int) == zr[j as int],
{
    let p = field_order() as int;
    let a = row_entries(inst.A@, r);
    let b = row_entries(inst.B@, r);
    let c = row_entries(inst.C@, r);
    let all = a + b + c;
    let zv = z_values(z);
    let width = instance_width(inst);
    lemma_row_entries_fit(inst.A@, r, inst.num_cons as nat, width);
    lemma_row_entries_fit(inst.B@, r, inst.num_cons as nat, width);
    lemma_row_entries_fit(inst.C@, r, inst.num_cons as nat, width);
    // The other columns of the row are solved, so they hold the reference values.
    assert forall|k: int| 0 <= k < all.len() && (#[trigger] all[k]).0 != j implies zv[all[k].0 as int]
        == zr[all[k].0 as int] by {
        if !s[all[k].0 as int] {
            assert(all[k].0 == j);
        }
        assert(all[k].0 < z.len()) by {
            if k < a.len() {
                assert(all[k] == a[k]);
            } else if k < a.len() + b.len() {
                assert(all[k] == b[k - a.len()]);
            } else {
                assert(all[k] == c[k - a.len() - b.len()]);
            }
        }
    }
    assert forall|k: int| 0 <= k < a.len() && (#[trigger] a[k]).0 != j implies zv[a[k].0 as int] == zr[a[k].0 as int] by {
        assert(all[k] == a[k]);
    }
    assert forall|k: int| 0 <= k < b.len() && (#[trigger] b[k]).0 != j implies zv[b[k].0 as int] == zr[b[k].0 as int] by {
        assert(all[a.len() + k] == b[k]);
    }
    assert forall|k: int| 0 <= k < c.len() && (#[trigger] c[k]).0 != j implies zv[c[k].0 as int] == zr[c[k].0 as int] by {
        assert(all[a.len() + b.len() + k] == c[k]);
    }
    lemma_sums_agree(a, j, zv, zr);
    lemma_sums_agree(b, j, zv, zr);
    lemma_sums_agree(c, j, zv, zr);
    let mva = matrix_view(inst.A@);
    let mvb = matrix_view(inst.B@);
    let mvc = matrix_view(inst.C@);
    lemma_entry_sums(inst.A@, r, j, zr);
    lemma_entry_sums(inst.B@, r, j, zr);
    lemma_entry_sums(inst.C@, r, j, zr);
    lemma_row_dot_split(mva, r, j as int, zr);
    lemma_row_dot_split(mvb, r, j as int, zr);
    lemma_row_dot_split(mvc, r, j as int, zr);
    assert(row_holds(mva, mvb, mvc, r, zr));
    let ak = sum_except(a, j, zv);
    let bk = sum_except(b, j, zv);
    let ck = sum_except(c, j, zv);
    let aj = sum_at(a, j);
    let bj = sum_at(b, j);
    let cj = sum_at(c, j);
    let zj = zr[j as int];
    assert(0 <= zj < p);
    assert(row_linear_at(mva, mvb, mvc, r, j as int));
    if (aj * bj) % p == 0 {
        lemma_step_value(p, ak, bk, ck, aj, bj, cj, zj, inv);
    } else {
        lemma_only_at_zero(mva, r, j as int, zr);
        lemma_only_at_zero(mvb, r, j as int, zr);
        assert(ak == 0 && bk == 0);
        let d = aj * bk + bj * ak - cj;
        assert(d == 0 - cj) by (nonlinear_arith)
            requires
                ak == 0,
                bk == 0,
                d == aj * bk + bj * ak - cj,
        ;
        lemma_sub_mod_noop(0, cj, p);
        assert(d % p == 0);
        lemma_mul_mod_noop_left(d, inv, p);
        assert((d * inv) % p == 0);
    }
}

/// Splits the row `entries` at column `j`: the sum of `coefficient · z[column]` over
/// the other columns, and the sum of the coefficients at column `j`.
fn split_sums(entries: &Vec<(usize, FieldElement)>, j: usize, z: &Vec<FieldElement>) -> (res: (
    FieldElement,
    FieldElement,
))
    requires
        forall|k: int| 0 <= k < entries@.len() ==> (#[trigger] entries@[k]).0 < z.len(),
        forall|k: int| 0 <= k < entries@.len() ==> (#[trigger] entries@[k]).1.is_canonical(),
        forall|c: int| 0 <= c < z.len() ==> (#[trigger] z@[c]).is_canonical(),
    ensures
        res.0.is_canonical(),
        res.1.is_canonical(),
        res.0.value() == sum_except(entries@, j, z_values(z@)) % (field_order() as int),
        res.1.value() == sum_at(entries@, j) % (field_order() as int),
{
    let ghost p = field_order() as int;
    let ghost zv = z_values(z@);
    let mut known = FieldElement::zero();
    let mut coeff = FieldElement::zero();
    let mut k: usize = 0;
    proof {
        assert(entries@.take(0).len() == 0);
        assert(sum_except(entries@.take(0), j, zv) == 0);
        assert(sum_at(entries@.take(0), j) == 0);
        assert(0int % p == 0);
    }
    while k < entries.len()
        invariant
            k <= entries.len(),
            p == field_order() as int,
            zv == z_values(z@),
            known.is_canonical(),
            coeff.is_canonical(),
            forall|q: int| 0 <= q < entries@.len() ==> (#[trigger] entries@[q]).0 < z.len(),
            forall|q: int| 0 <= q < entries@.len() ==> (#[trigger] entries@[q]).1.is_canonical(),
            forall|c: int| 0 <= c < z.len() ==> (#[trigger] z@[c]).is_canonical(),
            known.value() == sum_except(entries@.take(k as int), j, zv) % p,
            coeff.value() == sum_at(entries@.take(k as int), j) % p,
        decreases entries.len() - k,
    {
        let (col, val) = entries[k];
        let ghost prev_known = sum_except(entries@.take(k as int), j, zv);
        let ghost prev_coeff = sum_at(entries@.take(k as int), j);
        proof {
            assert(entries@.take(k + 1).drop_last() =~= entries@.take(k as int));
            assert(entries@.take(k + 1).last() == entries@[k as int]);
            lemma_small_mod(val.value(), field_order());
        }
        if col == j {
            coeff = coeff.add(&val);
            proof {
                lemma_add_mod_noop(prev_coeff, val.value() as int, p);
            }
        } else {
            let t = val.mul(&z[col]);
            known = known.add(&t);
            proof {
                assert(zv[col as int] == z@[col as int].value());
                lemma_add_mod_noop(prev_known, val.value() * zv[col as int], p);
                lemma_small_mod(known.value(), field_order());
            }
        }
        k = k + 1;
    }
    proof {
        assert(entries@.take(k as int) =~= entries@);
    }
    (known, coeff)
}

/// Number of `true` entries of `s` in `[lo, hi)`.
pub open spec fn count_true(s: Seq<bool>, lo: int, hi: int) -> nat
    decreases hi - lo,
{
    if hi <= lo {
        0
    } else {
        count_true(s, lo, hi - 1) + if s[hi - 1] {
            1nat
        } else {
            0nat
        }
    }
}

/// Number of unknown columns (private variables and outputs) that `s` marks solved.
pub open spec fn solved_count(inst: SpartanInstance, num_outputs: nat, s: Seq<bool>) -> nat {
    count_true(s, 0, inst.num_vars as int) + count_true(
        s,
        inst.num_vars + 1,
        inst.num_vars + 1 + num_outputs,
    )
}

/// The canonical element of value `v`.
pub open spec fn element_of(v: int) -> FieldElement {
    choose|e: FieldElement| e.is_canonical() && e.value() == v
}

/// The canonical value that the step of row `r` gives column `j` in `z`.
pub open spec fn step_element(inst: SpartanInstance, r: int, z: Seq<FieldElement>, j: usize) -> FieldElement {
    choose|e: FieldElement| e.is_canonical() && step_value_ok(inst, r, z_values(z), j, e.value() as int)
}

/// The solver's visit of row `r` in state `st = (z, solved)`: when the row
/// determines a column, that column gets its value and is marked solved; otherwise
/// nothing changes.
pub open spec fn visit_row(inst: SpartanInstance, r: int, st: (Seq<FieldElement>, Seq<bool>)) -> (
    Seq<FieldElement>,
    Seq<bool>,
) {
    if exists|j: usize| #[trigger] row_determines(inst, r, st.1, z_values(st.0), j) {
        let j = choose|j: usize| #[trigger] row_determines(inst, r, st.1, z_values(st.0), j);
        (st.0.update(j as int, step_element(inst, r, st.0, j)), st.1.update(j as int, true))
    } else {
        st
    }
}

/// The state after visiting rows `0..n` in index order, starting from `st`.
pub open spec fn pass_upto(inst: SpartanInstance, n: int, st: (Seq<FieldElement>, Seq<bool>)) -> (
    Seq<FieldElement>,
    Seq<bool>,
)
    decreases n,
{
    if n <= 0 {
        st
    } else {
        visit_row(inst, n - 1, pass_upto(inst, n - 1, st))
    }
}

/// The state in which the solver stops from `st`: passes over all rows, in index
/// order, are repeated until a pass solves nothing.
pub open spec fn solver_fixed_point(inst: SpartanInstance, st: (Seq<FieldElement>, Seq<bool>)) -> (
    Seq<FieldElement>,
    Seq<bool>,
)
    decreases count_unsolved(st.1),
{
    let next = pass_upto(inst, inst.num_cons as int, st);
    if count_unsolved(next.1) < count_unsolved(st.1) {
        solver_fixed_point(inst, next)
    } else {
        next
    }
}

/// The solver's starting state: the constant 1 at `num_vars`, the circuit inputs
/// after the outputs, both marked solved; every other column 0 and unsolved.
pub open spec fn solver_start_state(inst: SpartanInstance, num_outputs: nat, inputs: Seq<FieldElement>) -> (
    Seq<FieldElement>,
    Seq<bool>,
) {
    let base = inst.num_vars + 1 + num_outputs;
    (
        Seq::new(
            instance_width(inst),
            |c: int|
                if c == inst.num_vars {
                    element_of(1)
                } else if base <= c < base + inputs.len() {
                    inputs[c - base]
                } else {
                    element_of(0)
                },
        ),
        Seq::new(instance_width(inst), |c: int| c == inst.num_vars || base <= c < base + inputs.len()),
    )
}

/// The state in which the solver stops on `inst` with these inputs.
pub open spec fn solver_final_state(inst: SpartanInstance, num_outputs: nat, inputs: Seq<FieldElement>) -> (
    Seq<FieldElement>,
    Seq<bool>,
) {
    solver_fixed_point(inst, solver_start_state(inst, num_outputs, inputs))
}

/// Two canonical elements of equal value are the same element.
pub proof fn lemma_canonical_unique(a: FieldElement, b: FieldElement)
    requires
        a.value() == b.value(),
    ensures
        a == b,
{
    lemma_le_bytes_value_injective(a.bytes@, b.bytes@);
    assert(a.bytes == b.bytes);
}

/// Two values below `p` that a step solves alike are equal: with `d · inv ≡ 1`,
/// `a · d ≡ b · d` gives `a ≡ b`.
pub proof fn lemma_step_value_unique(a: int, b: int, d: int, inv: int, n: int, p: int)
    requires
        p > 0,
        0 <= a < p,
        0 <= b < p,
        (d * inv) % p == 1,
        (a * d) % p == n % p,
        (b * d) % p == n % p,
    ensures
        a == b,
{
    lemma_mul_mod_noop_left(a * d, inv, p);
    lemma_mul_mod_noop_left(b * d, inv, p);
    lemma_mul_mod_noop_left(n, inv, p);
    assert((a * d) * inv == a * (d * inv)) by (nonlinear_arith);
    assert((b * d) * inv == b * (d * inv)) by (nonlinear_arith);
    lemma_mul_mod_noop_right(a, d * inv, p);
    lemma_mul_mod_noop_right(b, d * inv, p);
    lemma_small_mod(a as nat, p as nat);
    lemma_small_mod(b as nat, p as nat);
}

/// What the solver's outcome says of the instance: it refuses inputs only of the
/// wrong count; otherwise it stops in the state of `solver_final_state` (passes over
/// the rows in index order until one solves nothing), succeeds exactly when that
/// state solves every private variable and output, and returns that state's
/// values. That state is reached by a run of steps and, when stuck, is stalled; a
/// full solution is canonical; and when every row is linear in every column, a full solution holds the values of
/// every reference assignment.
pub open spec fn solver_outcome(
    inst: SpartanInstance,
    num_outputs: nat,
    inputs: Seq<FieldElement>,
    res: Result<(Vec<FieldElement>, Vec<FieldElement>), WitnessError>,
) -> bool {
    &&& res matches Err(WitnessError::InvalidInputs { .. }) ==> inputs.len() + num_outputs != inst.num_inputs
    &&& res matches Err(WitnessError::SolverStuck { solved, .. }) ==> exists|states: Seq<
        (Seq<FieldElement>, Seq<bool>),
    >|
        #[trigger] solver_run(inst, num_outputs, inputs, states) && stalled(
            inst,
            num_outputs,
            inputs,
            states.last().0,
            states.last().1,
        ) && solved == solved_count(inst, num_outputs, states.last().1)
    &&& res matches Ok(w) ==> exists|states: Seq<(Seq<FieldElement>, Seq<bool>)>|
        #[trigger] solver_run(inst, num_outputs, inputs, states) && all_unknowns_solved(
            inst,
            num_outputs,
            states.last().1,
        ) && w.0@ == states.last().0.subrange(0, inst.num_vars as int) && w.1@ == states.last().0.subrange(
            inst.num_vars + 1,
            instance_width(inst) as int,
        )
    &&& inputs.len() + num_outputs == inst.num_inputs ==> (res is Ok <==> all_unknowns_solved(
        inst,
        num_outputs,
        solver_final_state(inst, num_outputs, inputs).1,
    ))
    &&& res matches Err(WitnessError::SolverStuck { solved, .. }) ==> solved == solved_count(
        inst,
        num_outputs,
        solver_final_state(inst, num_outputs, inputs).1,
    )
    &&& res matches Ok(w) ==> w.0@ == solver_final_state(inst, num_outputs, inputs).0.subrange(
        0,
        inst.num_vars as int,
    ) && w.1@ == solver_final_state(inst, num_outputs, inputs).0.subrange(
        inst.num_vars + 1,
        instance_width(inst) as int,
    )
    &&& res matches Ok(w) ==> forall|k: int| 0 <= k < w.0@.len() ==> (#[trigger] w.0@[k]).is_canonical()
    &&& res matches Ok(w) ==> forall|k: int| 0 <= k < w.1@.len() ==> (#[trigger] w.1@[k]).is_canonical()
    &&& res matches Ok(w) ==> (rows_linear(inst) ==> forall|zr: Seq<int>|
        #[trigger] is_reference(inst, num_outputs, inputs, zr) ==> z_values(w.0@) == zr.subrange(
            0,
            inst.num_vars as int,
        ) && z_values(w.1@) == zr.subrange(inst.num_vars + 1, instance_width(inst) as int))
}

/// Solves for the full witness (private variables and public outputs) given only
/// the R1CS matrices and the circuit input values.
///
/// The z-vector starts with the constant 1 and the circuit inputs known; then rows
/// are scanned repeatedly, and a row with exactly one unknown column `j` determines
/// it by `x = (c_known - a_known * b_known) / (a_j * b_known + b_j * a_known - c_j)`,
/// unless that denominator is zero. Scanning stops when a full pass solves nothing.
pub fn solve_witness_from_r1cs(
    instance: &SpartanInstance,
    num_outputs: usize,
    circuit_inputs: &[FieldElement],
) -> (res: Result<(Vec<FieldElement>, Vec<FieldElement>), WitnessError>)
    requires
        num_outputs <= instance.num_inputs,
        circuit_inputs@.len() == instance.num_inputs - num_outputs ==> instance_fits(*instance),
        instance.A@.len() + instance.B@.len() + instance.C@.len() <= usize::MAX,
        forall|k: int| 0 <= k < circuit_inputs@.len() ==> (#[trigger] circuit_inputs@[k]).is_canonical(),
    ensures
        res matches Err(WitnessError::InvalidInputs { expected, got }) ==> expected
            == instance.num_inputs - num_outputs && got == circuit_inputs@.len()
            && circuit_inputs@.len() != instance.num_inputs - num_outputs,
        circuit_inputs@.len() != instance.num_inputs - num_outputs ==> res is Err
            && res->Err_0 is InvalidInputs,
        res matches Err(WitnessError::SolverStuck { solved, total }) ==> total
            == instance.num_vars + num_outputs && solved < total,
        res matches Ok(w) ==> {
            &&& w.0.len() == instance.num_vars
            &&& w.1.len() == instance.num_inputs
            &&& forall|i: int|
                0 <= i < circuit_inputs@.len() ==> #[trigger] w.1@[num_outputs + i]
                    == circuit_inputs@[i]
        },
        solver_outcome(*instance, num_outputs as nat, circuit_inputs@, res),
{
    let expected_inputs = instance.num_inputs - num_outputs;
    if circuit_inputs.len() != expected_inputs {
        return Err(WitnessError::InvalidInputs { expected: expected_inputs, got: circuit_inputs.len() });
    }
    let num_cons = instance.num_cons;
    let num_vars = instance.num_vars;
    let z_len = num_vars + 1 + instance.num_inputs;

    // Group matrix entries by row.
    let a_rows = group_rows(&instance.A, num_cons);
    let b_rows = group_rows(&instance.B, num_cons);
    let c_rows = group_rows(&instance.C, num_cons);

    // The z-vector, with the constant 1 and the circuit inputs known.
    let mut z: Vec<FieldElement> = Vec::new();
    let mut solved: Vec<bool> = Vec::new();
    let zero = FieldElement::zero();
    let mut c: usize = 0;
    while c < z_len
        invariant
            c <= z_len,
            z.len() == c,
            solved.len() == c,
            zero.is_canonical(),
            forall|q: int| 0 <= q < c ==> (#[trigger] z@[q]).is_canonical(),
            forall|q: int| 0 <= q < c ==> !#[trigger] solved@[q],
            forall|q: int| 0 <= q < c ==> #[trigger] z@[q] == zero,
        decreases z_len - c,
    {
        z.push(zero);
        solved.push(false);
        c = c + 1;
    }
    let one = FieldElement::one();
    z.set(num_vars, one);
    solved.set(num_vars, true);
    let mut i: usize = 0;
    while i < circuit_inputs.len()
        invariant
            i <= circuit_inputs.len(),
            circuit_inputs@.len() == instance.num_inputs - num_outputs,
            z_len == num_vars + 1 + instance.num_inputs,
            z.len() == z_len,
            solved.len() == z_len,
            forall|q: int| 0 <= q < z_len ==> (#[trigger] z@[q]).is_canonical(),
            forall|k: int| 0 <= k < circuit_inputs@.len() ==> (#[trigger] circuit_inputs@[k]).is_canonical(),
            inputs_placed(z@, solved@, num_vars + 1 + num_outputs, circuit_inputs@.take(i as int)),
            num_vars == instance.num_vars,
            solved@[num_vars as int],
            z@[num_vars as int].value() == 1,
            forall|q: int|
                0 <= q < z_len ==> (#[trigger] solved@[q] <==> q == num_vars || num_vars + 1 + num_outputs <= q
                    < num_vars + 1 + num_outputs + i),
            forall|q: int| 0 <= q < z_len && !solved@[q] ==> #[trigger] z@[q] == zero,
            z@[num_vars as int] == one,
            zero.is_canonical(),
            zero.value() == 0,
            one.is_canonical(),
            one.value() == 1,
        decreases circuit_inputs.len() - i,
    {
        let idx = num_vars + 1 + num_outputs + i;
        z.set(idx, circuit_inputs[i]);
        solved.set(idx, true);
        i = i + 1;
    }
    proof {
        assert(circuit_inputs@.take(i as int) =~= circuit_inputs@);
        let start = solver_start_state(*instance, num_outputs as nat, circuit_inputs@);
        let base = num_vars + 1 + num_outputs;
        assert(exists|e: FieldElement| e.is_canonical() && e.value() == 1int) by {
            assert(one.is_canonical() && one.value() == 1int);
        }
        assert(exists|e: FieldElement| e.is_canonical() && e.value() == 0int) by {
            assert(zero.is_canonical() && zero.value() == 0int);
        }
        lemma_canonical_unique(element_of(1), one);
        lemma_canonical_unique(element_of(0), zero);
        assert forall|c: int| 0 <= c < z_len implies #[trigger] z@[c] == start.0[c] by {
            if base <= c < base + circuit_inputs@.len() {
                lemma_input_placed_at(z@, solved@, base as int, circuit_inputs@, c - base);
            }
        }
        assert(z@ =~= start.0);
        assert(solved@ =~= start.1);
    }
    let ghost mut states: Seq<(Seq<FieldElement>, Seq<bool>)> = seq![(z@, solved@)];
    proof {
        assert(solver_start(*instance, num_outputs as nat, circuit_inputs@, z@, solved@));
        assert(solver_run(*instance, num_outputs as nat, circuit_inputs@, states));
    }

    // Fixed-point iteration.
    let ghost width = z_len as nat;
    let ghost inst = *instance;
    let ghost n_out = num_outputs as nat;
    let ghost ins = circuit_inputs@;
    let ghost p = field_order() as int;
    proof {
        assert forall|zr: Seq<int>| #[trigger] is_reference(inst, n_out, ins, zr) implies agrees(z@, solved@, zr) by {
            assert forall|c: int| 0 <= c < z@.len() && #[trigger] solved@[c] implies z@[c].value() == zr[c] by {
                if c != num_vars {
                    let base = num_vars + 1 + num_outputs;
                    assert(base <= c < base + circuit_inputs@.len());
                    lemma_input_placed_at(z@, solved@, base as int, circuit_inputs@, c - base);
                }
            }
        }
    }
    loop
        invariant
            inst == *instance,
            n_out == num_outputs,
            ins == circuit_inputs@,
            p == field_order() as int,
            instance_fits(*instance),
            z_len == instance_width(*instance),
            num_cons == instance.num_cons,
            width == instance_width(*instance),
            num_outputs <= instance.num_inputs,
            circuit_inputs@.len() == instance.num_inputs - num_outputs,
            instance.A@.len() + instance.B@.len() + instance.C@.len() <= usize::MAX,
            num_vars == instance.num_vars,
            z.len() == z_len,
            solved.len() == z_len,
            a_rows.len() == num_cons,
            b_rows.len() == num_cons,
            c_rows.len() == num_cons,
            forall|r: int| 0 <= r < num_cons ==> (#[trigger] a_rows[r])@ == row_entries(instance.A@, r),
            forall|r: int| 0 <= r < num_cons ==> (#[trigger] b_rows[r])@ == row_entries(instance.B@, r),
            forall|r: int| 0 <= r < num_cons ==> (#[trigger] c_rows[r])@ == row_entries(instance.C@, r),
            forall|q: int| 0 <= q < z_len ==> (#[trigger] z@[q]).is_canonical(),
            inputs_placed(z@, solved@, num_vars + 1 + num_outputs, circuit_inputs@),
            solved@[num_vars as int],
            z@[num_vars as int].value() == 1,
            rows_linear(inst) ==> forall|zr: Seq<int>| #[trigger] is_reference(inst, n_out, ins, zr) ==> agrees(z@, solved@, zr),
            solver_run(inst, n_out, ins, states),
            states.last() == (z@, solved@),
            solver_fixed_point(inst, (z@, solved@)) == solver_final_state(inst, n_out, ins),
        ensures
            forall|q: int, j: usize| 0 <= q < num_cons ==> !#[trigger] row_determines(inst, q, solved@, z_values(z@), j),
            (z@, solved@) == solver_final_state(inst, n_out, ins),
        decreases count_unsolved(solved@),
    {
        let ghost start_count = count_unsolved(solved@);
        let ghost zp = z@;
        let ghost sp = solved@;
        let mut progress = false;
        let mut row: usize = 0;
        while row < num_cons
            invariant
                inst == *instance,
                n_out == num_outputs,
                ins == circuit_inputs@,
                p == field_order() as int,
                instance_fits(*instance),
                z_len == instance_width(*instance),
                num_cons == instance.num_cons,
                width == instance_width(*instance),
                num_outputs <= instance.num_inputs,
                circuit_inputs@.len() == instance.num_inputs - num_outputs,
                instance.A@.len() + instance.B@.len() + instance.C@.len() <= usize::MAX,
                num_vars == instance.num_vars,
                row <= num_cons,
                z.len() == z_len,
                solved.len() == z_len,
                a_rows.len() == num_cons,
                b_rows.len() == num_cons,
                c_rows.len() == num_cons,
                forall|r: int| 0 <= r < num_cons ==> (#[trigger] a_rows[r])@ == row_entries(instance.A@, r),
                forall|r: int| 0 <= r < num_cons ==> (#[trigger] b_rows[r])@ == row_entries(instance.B@, r),
                forall|r: int| 0 <= r < num_cons ==> (#[trigger] c_rows[r])@ == row_entries(instance.C@, r),
                forall|q: int| 0 <= q < z_len ==> (#[trigger] z@[q]).is_canonical(),
                inputs_placed(z@, solved@, num_vars + 1 + num_outputs, circuit_inputs@),
                solved@[num_vars as int],
                z@[num_vars as int].value() == 1,
                rows_linear(inst) ==> forall|zr: Seq<int>| #[trigger] is_reference(inst, n_out, ins, zr) ==> agrees(z@, solved@, zr),
                solver_run(inst, n_out, ins, states),
                states.last() == (z@, solved@),
                progress ==> count_unsolved(solved@) < start_count,
                !progress ==> count_unsolved(solved@) == start_count,
                start_count == count_unsolved(sp),
                !progress ==> z@ == zp && solved@ == sp,
                (z@, solved@) == pass_upto(inst, row as int, (zp, sp)),
                solver_fixed_point(inst, (zp, sp)) == solver_final_state(inst, n_out, ins),
                !progress ==> forall|q: int, j: usize| 0 <= q < row ==> !#[trigger] row_determines(inst, q, solved@, z_values(z@), j),
            decreases num_cons - row,
        {
            proof {
                lemma_row_entries_fit(instance.A@, row as int, num_cons as nat, width);
                lemma_row_entries_fit(instance.B@, row as int, num_cons as nat, width);
                lemma_row_entries_fit(instance.C@, row as int, num_cons as nat, width);
            }
            let ghost zv = z_values(z@);
            let ghost ea = row_entries(instance.A@, row as int);
            let ghost eb = row_entries(instance.B@, row as int);
            let ghost ec = row_entries(instance.C@, row as int);
            let unsolved = find_unsolved(&a_rows[row], &b_rows[row], &c_rows[row], &solved);
            let mut solved_here = false;
            if let Some(j) = unsolved {
                let (a_known, a_j) = split_sums(&a_rows[row], j, &z);
                let (b_known, b_j) = split_sums(&b_rows[row], j, &z);
                let (c_known, c_j) = split_sums(&c_rows[row], j, &z);
                let ghost ak = sum_except(ea, j, zv);
                let ghost bk = sum_except(eb, j, zv);
                let ghost ck = sum_except(ec, j, zv);
                let ghost aj = sum_at(ea, j);
                let ghost bj = sum_at(eb, j);
                let ghost cj = sum_at(ec, j);
                let denom = a_j.mul(&b_known).add(&b_j.mul(&a_known)).sub(&c_j);
                proof {
                    lemma_mul_mod_noop(aj, bk, p);
                    lemma_mul_mod_noop(bj, ak, p);
                    lemma_add_mod_noop(aj * bk, bj * ak, p);
                    lemma_sub_mod_noop(aj * bk + bj * ak, cj, p);
                    assert(denom.value() == step_denominator(ea, eb, ec, j, zv) % p);
                }
                if !denom.is_zero() {
                    let numer = c_known.sub(&a_known.mul(&b_known));
                    let inv = denom.invert();
                    let x = numer.mul(&inv);
                    proof {
                        lemma_mul_mod_noop(ak, bk, p);
                        lemma_sub_mod_noop(ck, ak * bk, p);
                        assert(numer.value() == step_numerator(ea, eb, ec, j, zv) % p);
                        lemma_mul_mod_noop_left(step_denominator(ea, eb, ec, j, zv), inv.value() as int, p);
                        assert((step_denominator(ea, eb, ec, j, zv) * inv.value()) % p == 1);
                        lemma_mul_mod_noop_left(step_numerator(ea, eb, ec, j, zv), inv.value() as int, p);
                        assert(x.value() == (step_numerator(ea, eb, ec, j, zv) * inv.value()) % p);
                        lemma_count_unsolved_update(solved@, j as int);
                        let base = num_vars + 1 + num_outputs;
                        if base <= j < base + circuit_inputs@.len() {
                            let k = j - base;
                            lemma_input_placed_at(z@, solved@, base, circuit_inputs@, k);
                        }
                        if rows_linear(inst) {
                            assert forall|zr: Seq<int>| #[trigger] is_reference(inst, n_out, ins, zr) implies x.value() == zr[j as int] by {
                                lemma_step_sound(inst, n_out, ins, zr, z@, solved@, row as int, j, inv.value() as int);
                            }
                        }
                    }
                    let ghost z0 = z@;
                    let ghost s0 = solved@;
                    proof {
                        lemma_step_arith(
                            step_denominator(ea, eb, ec, j, zv),
                            step_numerator(ea, eb, ec, j, zv),
                            inv.value() as int,
                            x.value() as int,
                            p,
                        );
                        assert(denom.value() != 0);
                        assert(step_denominator(ea, eb, ec, j, zv) % p != 0);
                        assert(row_determines(inst, row as int, s0, zv, j));
                    }
                    z.set(j, x);
                    solved.set(j, true);
                    proof {
                        let ghost prev = states;
                        assert(z@ == z0.update(j as int, z@[j as int]));
                        assert(solver_step(inst, z0, s0, z@, solved@));
                        assert(row_determines(inst, row as int, s0, z_values(z0), j));
                        let j2 = choose|j2: usize| #[trigger] row_determines(inst, row as int, s0, z_values(z0), j2);
                        lemma_unique_unsolved_unique(ea, eb, ec, s0, j, j2);
                        let e = step_element(inst, row as int, z0, j);
                        assert(x.is_canonical() && step_value_ok(inst, row as int, z_values(z0), j, x.value() as int));
                        lemma_step_value_unique(
                            e.value() as int,
                            x.value() as int,
                            step_denominator(ea, eb, ec, j, zv),
                            inv.value() as int,
                            step_numerator(ea, eb, ec, j, zv),
                            p,
                        );
                        lemma_canonical_unique(e, x);
                        assert(visit_row(inst, row as int, (z0, s0)) == (z@, solved@));
                        states = states.push((z@, solved@));
                        assert forall|k: int| 0 <= k < states.len() - 1 implies #[trigger] solver_step(
                            inst,
                            states[k].0,
                            states[k].1,
                            states[k + 1].0,
                            states[k + 1].1,
                        ) by {
                            if k < prev.len() - 1 {
                                assert(states[k] == prev[k] && states[k + 1] == prev[k + 1]);
                            } else {
                                assert(states[k] == prev.last());
                            }
                        }
                        assert(solver_run(inst, n_out, ins, states));
                        if rows_linear(inst) {
                            assert forall|zr: Seq<int>| #[trigger] is_reference(inst, n_out, ins, zr) implies agrees(z@, solved@, zr) by {
                                assert(agrees(z0, s0, zr));
                                assert forall|c: int| 0 <= c < z@.len() && #[trigger] solved@[c] implies z@[c].value() == zr[c] by {
                                    if c != j {
                                        assert(s0[c]);
                                    }
                                }
                            }
                        }
                    }
                    progress = true;
                    solved_here = true;
                }
            }
            proof {
                if !solved_here {
                    assert forall|j2: usize| !#[trigger] row_determines(inst, row as int, solved@, z_values(z@), j2) by {
                        if unique_unsolved(ea, eb, ec, solved@, j2) {
                            let j = unsolved->Some_0;
                            lemma_unique_unsolved_unique(ea, eb, ec, solved@, j, j2);
                        }
                    }
                    assert(visit_row(inst, row as int, (z@, solved@)) == (z@, solved@));
                }
            }
            row = row + 1;
        }
        proof {
            assert(pass_upto(inst, num_cons as int, (zp, sp)) == (z@, solved@));
        }
        if !progress {
            break;
        }
    }

    // Convergence check: every private variable and every output must be solved.
    let num_need_solved = num_vars + num_outputs;
    let mut num_solved: usize = 0;
    let mut q: usize = 0;
    while q < num_vars
        invariant
            q <= num_vars,
            num_vars < solved.len(),
            num_solved <= q,
            num_solved == count_true(solved@, 0, q as int),
            num_solved == q ==> forall|c: int| 0 <= c < q ==> #[trigger] solved@[c],
            num_solved < q ==> exists|c: int| 0 <= c < q && !#[trigger] solved@[c],
        decreases num_vars - q,
    {
        if solved[q] {
            num_solved = num_solved + 1;
        }
        q = q + 1;
    }
    let mut q: usize = 0;
    while q < num_outputs
        invariant
            q <= num_outputs,
            num_vars + 1 + num_outputs <= solved.len(),
            num_vars == instance.num_vars,
            n_out == num_outputs,
            num_solved <= num_vars + q,
            num_solved == count_true(solved@, 0, num_vars as int) + count_true(
                solved@,
                num_vars + 1,
                num_vars + 1 + q,
            ),
            num_solved == num_vars + q ==> (forall|c: int| 0 <= c < num_vars ==> #[trigger] solved@[c]) && (forall|c: int|
                num_vars + 1 <= c < num_vars + 1 + q ==> #[trigger] solved@[c]),
            num_solved < num_vars + q ==> exists|c: int| unknown_column(*instance, n_out, c) && !#[trigger] solved@[c],
        decreases num_outputs - q,
    {
        if solved[num_vars + 1 + q] {
            num_solved = num_solved + 1;
        }
        q = q + 1;
    }
    if num_solved < num_need_solved {
        proof {
            assert(stalled(inst, n_out, ins, z@, solved@));
            assert(num_solved == solved_count(inst, n_out, solved@));
            assert(solver_run(inst, n_out, ins, states) && stalled(inst, n_out, ins, states.last().0, states.last().1));
        }
        return Err(WitnessError::SolverStuck { solved: num_solved, total: num_need_solved });
    }

    // Extract the results.
    proof {
        if rows_linear(inst) {
            assert forall|zr: Seq<int>| #[trigger] is_reference(inst, n_out, ins, zr) implies forall|c: int|
                0 <= c < z_len ==> z@[c].value() == zr[c] by {
                assert(agrees(z@, solved@, zr));
                assert forall|c: int| 0 <= c < z_len implies z@[c].value() == zr[c] by {
                    if c > num_vars + num_outputs {
                        let base = num_vars + 1 + num_outputs;
                        lemma_input_placed_at(z@, solved@, base as int, circuit_inputs@, c - base);
                    }
                    assert(solved@[c]);
                }
            }
        }
    }
    let mut vars: Vec<FieldElement> = Vec::new();
    let mut q: usize = 0;
    while q < num_vars
        invariant
            q <= num_vars,
            num_vars < z.len(),
            vars@ == z@.subrange(0, q as int),
            forall|c: int| 0 <= c < z.len() ==> (#[trigger] z@[c]).is_canonical(),
        decreases num_vars - q,
    {
        vars.push(z[q]);
        assert(vars@ =~= z@.subrange(0, q + 1));
        q = q + 1;
    }
    let mut public_io: Vec<FieldElement> = Vec::new();
    let mut q: usize = 0;
    while q < instance.num_inputs
        invariant
            q <= instance.num_inputs,
            z.len() == num_vars + 1 + instance.num_inputs,
            public_io@ == z@.subrange(num_vars + 1, num_vars + 1 + q),
            forall|c: int| 0 <= c < z.len() ==> (#[trigger] z@[c]).is_canonical(),
        decreases instance.num_inputs - q,
    {
        public_io.push(z[num_vars + 1 + q]);
        assert(public_io@ =~= z@.subrange(num_vars + 1, num_vars + 1 + q + 1));
        q = q + 1;
    }
    proof {
        if rows_linear(inst) {
            assert forall|zr: Seq<int>| #[trigger] is_reference(inst, n_out, ins, zr) implies z_values(vars@)
                =~= zr.subrange(0, num_vars as int) && z_values(public_io@) =~= zr.subrange(
                num_vars + 1,
                z_len as int,
            ) by {
                assert(forall|c: int| 0 <= c < z_len ==> z@[c].value() == zr[c]);
            }
        }
    }
    proof {
        assert(all_unknowns_solved(inst, n_out, solved@)) by {
            assert forall|c: int| unknown_column(inst, n_out, c) implies #[trigger] solved@[c] by {
                if c >= num_vars {
                    assert(num_vars + 1 <= c < num_vars + 1 + num_outputs);
                }
            }
        }
        assert(solver_run(inst, n_out, ins, states));
    }
    Ok((vars, public_io))
}

/// The value a step computes solves its row: with `d · inv ≡ 1`, the value
/// `x = n · inv mod ℓ` has `x · d ≡ n`.
pub proof fn lemma_step_arith(d: int, n: int, inv: int, x: int, p: int)
    requires
        p > 0,
        (d * inv) % p == 1,
        x == (n * inv) % p,
    ensures
        (x * d) % p == n % p,
{
    lemma_mul_mod_noop_left(n * inv, d, p);
    assert((n * inv) * d == n * (d * inv)) by (nonlinear_arith);
    vstd::arithmetic::div_mod::lemma_mul_mod_noop_right(n, d * inv, p);
    assert(n * 1 == n);
}

/// When two columns are each a row's only unsolved column, they are the same.
pub proof fn lemma_unique_unsolved_unique(
    a: Seq<(usize, FieldElement)>,
    b: Seq<(usize, FieldElement)>,
    c: Seq<(usize, FieldElement)>,
    s: Seq<bool>,
    j1: usize,
    j2: usize,
)
    requires
        unique_unsolved(a, b, c, s, j1),
        unique_unsolved(a, b, c, s, j2),
    ensures
        j1 == j2,
{
    let all = a + b + c;
    let k = choose|k: int| 0 <= k < all.len() && all[k].0 == j1;
    assert(!s[all[k].0 as int]);
}

/// The entries of a row of a fitting matrix have columns inside the z-vector and
/// canonical coefficients.
pub proof fn lemma_row_entries_fit(m: Seq<(usize, usize, [u8; 32])>, r: int, num_cons: nat, z_len: nat)
    requires
        matrix_fits(m, num_cons, z_len),
    ensures
        row_entries(m, r).len() <= m.len(),
        forall|k: int| 0 <= k < row_entries(m, r).len() ==> (#[trigger] row_entries(m, r)[k]).0 < z_len
            && row_entries(m, r)[k].1.is_canonical(),
{
    let f = in_row(r);
    let fl = m.filter(f);
    m.lemma_filter_len(f);
    assert forall|k: int| 0 <= k < row_entries(m, r).len() implies (#[trigger] row_entries(m, r)[k]).0 < z_len
        && row_entries(m, r)[k].1.is_canonical() by {
        assert(row_entries(m, r).len() == fl.len());
        assert(row_entries(m, r)[k] == (fl[k].1, FieldElement { bytes: fl[k].2 }));
        assert(fl.contains(fl[k])) by {
            assert(fl[k] == fl[k]);
        }
        m.lemma_filter_contains_rev(f, fl[k]);
        let w = choose|q: int| 0 <= q < m.len() && m[q] == fl[k];
        assert(m[w].1 < z_len);
        assert(bytes_are_canonical(m[w].2));
    }
}

} // verus!
