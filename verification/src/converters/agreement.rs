//! The R1CS solver and the DAG witness agree: on the instance built from a DAG the
//! solver converges, and it finds exactly the witness computed from the DAG.
use super::layout::{
    circuit_input_ids, circuit_inputs_upto, const_column, fourth_column, is_circuit_input,
    is_public_node, lemma_private_before_monotone, node_column, node_count_fits, num_private_vars,
    private_before, square_column,
};
use super::r1cs::{
    assignment, lemma_matrix_rows_below, lemma_node_entry_rows, lemma_row_owner,
    lemma_witness_satisfies_instance, pick,
};
use super::solver::{
    instance_width, is_reference, row_entries, row_linear_at, rows_linear, solver_outcome, z_values,
    WitnessError,
};
use super::spartan::{
    describes_instance, entry_view, lemma_row_start_step, lemma_rows_from_antitone, lemma_rows_from_total,
    matrix_view, node_entries, row_end, row_start, rows_from, spartan_matrices, unit, SpartanInstance,
};
use super::solver::{col_coeff, row_only_at};
use super::witness::{inputs_fit, is_witness};
use crate::dag::graph::{op_operands, DAG};
use crate::dag::node::{op_constraint_count, OpType};
use crate::field::{field_order, FieldElement};
use vstd::prelude::*;

verus! {

/// Whether an entry lies in row `r` (integer view).
pub open spec fn row_is(r: int) -> spec_fn((int, int, nat)) -> bool {
    |e: (int, int, nat)| e.0 == r
}

/// The solver's row entries `es` are the view entries `vs`: same columns and
/// coefficient values, in the same order.
pub open spec fn matches_row(es: Seq<(usize, FieldElement)>, vs: Seq<(int, int, nat)>) -> bool {
    &&& es.len() == vs.len()
    &&& forall|k: int|
        0 <= k < es.len() ==> es[k].0 as int == (#[trigger] vs[k]).1 && es[k].1.value() == vs[k].2
}

/// The solver's entries of row `r` are the view entries of row `r`.
pub proof fn lemma_row_entries_match(m: Seq<(usize, usize, [u8; 32])>, r: int)
    ensures
        matches_row(row_entries(m, r), matrix_view(m).filter(row_is(r))),
    decreases m.len(),
{
    if m.len() > 0 {
        let prev = m.drop_last();
        let e = m.last();
        lemma_row_entries_match(prev, r);
        assert(m =~= prev.push(e));
        assert(matrix_view(m) =~= matrix_view(prev).push(entry_view(e)));
        matrix_view(prev).lemma_filter_push(entry_view(e), row_is(r));
        prev.lemma_filter_push(e, super::solver::in_row(r));
        let pe = row_entries(prev, r);
        if e.0 == r {
            assert(row_entries(m, r) =~= pe.push((e.1, FieldElement { bytes: e.2 })));
        } else {
            assert(row_entries(m, r) =~= pe);
        }
    }
}

/// A filter that keeps nothing gives the empty sequence.
pub proof fn lemma_filter_none(s: Seq<(int, int, nat)>, r: int)
    requires
        forall|k: int| 0 <= k < s.len() ==> (#[trigger] s[k]).0 != r,
    ensures
        s.filter(row_is(r)) == Seq::<(int, int, nat)>::empty(),
    decreases s.len(),
{
    if s.len() > 0 {
        let prev = s.drop_last();
        assert forall|k: int| 0 <= k < prev.len() implies (#[trigger] prev[k]).0 != r by {
            assert(prev[k] == s[k]);
        }
        lemma_filter_none(prev, r);
        assert(s =~= prev.push(s.last()));
        prev.lemma_filter_push(s.last(), row_is(r));
    }
}

/// A row owned by node `i` holds node `i`'s entries of that row and nothing else.
pub proof fn lemma_row_of_node(dag: DAG, k: int, i: int, r: int, w: int)
    requires
        0 <= k <= i < dag.nodes.len(),
        row_start(dag, i) <= r < row_end(dag, i),
    ensures
        pick(spartan_matrices(dag, k), w).filter(row_is(r)) == pick(
            node_entries(dag, i, row_start(dag, i) as int),
            w,
        ).filter(row_is(r)),
    decreases i - k,
{
    let prev = pick(spartan_matrices(dag, k + 1), w);
    let e = pick(node_entries(dag, k, row_start(dag, k) as int), w);
    assert(pick(spartan_matrices(dag, k), w) =~= prev + e);
    Seq::filter_distributes_over_add(prev, e, row_is(r));
    if k == i {
        lemma_matrix_rows_below(dag, i + 1, w);
        assert forall|q: int| 0 <= q < prev.len() implies (#[trigger] prev[q]).0 != r by {}
        lemma_filter_none(prev, r);
        assert(prev.filter(row_is(r)) + e.filter(row_is(r)) =~= e.filter(row_is(r)));
    } else {
        lemma_row_of_node(dag, k + 1, i, r, w);
        lemma_node_entry_rows(dag, k, w);
        lemma_rows_from_antitone(dag, k + 1, i);
        assert forall|q: int| 0 <= q < e.len() implies (#[trigger] e[q]).0 != r by {}
        lemma_filter_none(e, r);
        assert(prev.filter(row_is(r)) + e.filter(row_is(r)) =~= prev.filter(row_is(r)));
    }
}

/// One of the instance's three matrices.
pub open spec fn matrix_of(inst: SpartanInstance, w: int) -> Seq<(usize, usize, [u8; 32])> {
    if w == 0 {
        inst.A@
    } else if w == 1 {
        inst.B@
    } else {
        inst.C@
    }
}

/// The entries of row `row_start(i) + t` that node `i` contributes to matrix `w`.
pub open spec fn node_row(dag: DAG, i: int, t: int, w: int) -> Seq<(int, int, nat)> {
    pick(node_entries(dag, i, row_start(dag, i) as int), w).filter(
        row_is(row_start(dag, i) + t),
    )
}

/// The solver sees node `i`'s rows of a DAG instance as the node's entries.
pub proof fn lemma_dag_row_entries(dag: DAG, inst: SpartanInstance, i: int, t: int, w: int)
    requires
        describes_instance(inst, dag),
        0 <= i < dag.nodes.len(),
        0 <= t < op_constraint_count(dag.nodes[i].op),
        0 <= w < 3,
    ensures
        matches_row(row_entries(matrix_of(inst, w), row_start(dag, i) + t), node_row(dag, i, t, w)),
{
    let r = row_start(dag, i) + t;
    lemma_row_start_step(dag, i);
    lemma_row_entries_match(matrix_of(inst, w), r);
    lemma_row_of_node(dag, 0, i, r, w);
    assert(matrix_view(matrix_of(inst, w)) == pick(spartan_matrices(dag, 0), w));
}

/// Filtering a sequence of one entry by row.
pub proof fn lemma_filter_one(a: (int, int, nat), r: int)
    ensures
        seq![a].filter(row_is(r)) == if a.0 == r {
            seq![a]
        } else {
            Seq::<(int, int, nat)>::empty()
        },
{
    assert(seq![a] =~= Seq::<(int, int, nat)>::empty().push(a));
    Seq::<(int, int, nat)>::empty().lemma_filter_push(a, row_is(r));
    assert(Seq::<(int, int, nat)>::empty().filter(row_is(r)) =~= Seq::<(int, int, nat)>::empty()) by {
        reveal_with_fuel(Seq::filter, 1);
    }
}

/// Filtering a sequence of two entries by row.
pub proof fn lemma_filter_two(a: (int, int, nat), b: (int, int, nat), r: int)
    ensures
        seq![a, b].filter(row_is(r)) == seq![a].filter(row_is(r)) + if b.0 == r {
            seq![b]
        } else {
            Seq::<(int, int, nat)>::empty()
        },
{
    assert(seq![a, b] =~= seq![a].push(b));
    seq![a].lemma_filter_push(b, row_is(r));
}

/// Filtering a sequence of three entries by row.
pub proof fn lemma_filter_three(a: (int, int, nat), b: (int, int, nat), c: (int, int, nat), r: int)
    ensures
        seq![a, b, c].filter(row_is(r)) == seq![a, b].filter(row_is(r)) + if c.0 == r {
            seq![c]
        } else {
            Seq::<(int, int, nat)>::empty()
        },
{
    assert(seq![a, b, c] =~= seq![a, b].push(c));
    seq![a, b].lemma_filter_push(c, row_is(r));
}

/// Row sums of matched entries are the view's row sums.
pub proof fn lemma_matched_sums(es: Seq<(usize, FieldElement)>, vs: Seq<(int, int, nat)>, r: int, j: usize, z: Seq<int>)
    requires
        matches_row(es, vs),
        forall|k: int| 0 <= k < vs.len() ==> (#[trigger] vs[k]).0 == r,
    ensures
        super::solver::sum_at(es, j) == col_coeff(vs, r, j as int),
        super::solver::sum_except(es, j, z) == super::solver::dot_except(vs, r, j as int, z),
    decreases es.len(),
{
    if es.len() > 0 {
        let k = es.len() - 1;
        assert(vs[k].0 == r);
        assert forall|q: int| 0 <= q < es.drop_last().len() implies es.drop_last()[q].0 as int == (#[trigger] vs.drop_last()[q]).1
            && es.drop_last()[q].1.value() == vs.drop_last()[q].2 by {
            assert(es.drop_last()[q] == es[q]);
            assert(vs.drop_last()[q] == vs[q]);
        }
        assert forall|q: int| 0 <= q < vs.drop_last().len() implies (#[trigger] vs.drop_last()[q]).0 == r by {
            assert(vs.drop_last()[q] == vs[q]);
        }
        lemma_matched_sums(es.drop_last(), vs.drop_last(), r, j, z);
        assert(es.last() == es[k]);
        assert(vs.last() == vs[k]);
    }
}

/// Column `j` is the only unsolved column among matched rows whose view entries
/// hold it and whose other columns are solved.
pub proof fn lemma_matched_unique_unsolved(
    ea: Seq<(usize, FieldElement)>,
    eb: Seq<(usize, FieldElement)>,
    ec: Seq<(usize, FieldElement)>,
    va: Seq<(int, int, nat)>,
    vb: Seq<(int, int, nat)>,
    vc: Seq<(int, int, nat)>,
    s: Seq<bool>,
    j: usize,
    in_a: bool,
    kw: int,
)
    requires
        matches_row(ea, va),
        matches_row(eb, vb),
        matches_row(ec, vc),
        !s[j as int],
        in_a ==> 0 <= kw < va.len() && va[kw].1 == j,
        !in_a ==> 0 <= kw < vc.len() && vc[kw].1 == j,
        forall|k: int| 0 <= k < va.len() && (#[trigger] va[k]).1 != j ==> 0 <= va[k].1 < s.len() && s[va[k].1],
        forall|k: int| 0 <= k < vb.len() && (#[trigger] vb[k]).1 != j ==> 0 <= vb[k].1 < s.len() && s[vb[k].1],
        forall|k: int| 0 <= k < vc.len() && (#[trigger] vc[k]).1 != j ==> 0 <= vc[k].1 < s.len() && s[vc[k].1],
    ensures
        super::solver::unique_unsolved(ea, eb, ec, s, j),
{
    let all = ea + eb + ec;
    if in_a {
        assert(all[kw] == ea[kw]);
        assert(all[kw].0 == j);
    } else {
        assert(all[ea.len() + eb.len() + kw] == ec[kw]);
        assert(all[ea.len() + eb.len() + kw].0 == j);
    }
    assert forall|q: int| 0 <= q < all.len() && !s[(#[trigger] all[q]).0 as int] implies all[q].0 == j by {
        if q < ea.len() {
            assert(all[q] == ea[q]);
            assert(ea[q].0 as int == va[q].1);
        } else if q < ea.len() + eb.len() {
            assert(all[q] == eb[q - ea.len()]);
            assert(eb[q - ea.len()].0 as int == vb[q - ea.len()].1);
        } else {
            assert(all[q] == ec[q - ea.len() - eb.len()]);
            assert(ec[q - ea.len() - eb.len()].0 as int == vc[q - ea.len() - eb.len()].1);
        }
    }
}

/// Node columns sit apart from the constant column and from each other, and a
/// `Pow5` node's square and fourth-power columns sit apart from its own column and
/// from the columns of the nodes after it.
pub proof fn lemma_columns_apart(dag: DAG)
    requires
        dag.is_well_formed(),
    ensures
        forall|a: int| 0 <= a < dag.nodes.len() ==> #[trigger] node_column(dag, a) != const_column(dag),
        forall|a: int, b: int|
            0 <= a < b < dag.nodes.len() ==> #[trigger] node_column(dag, a) != #[trigger] node_column(dag, b),
        forall|i: int|
            0 <= i < dag.nodes.len() && dag.nodes[i].op is Pow5 ==> {
                &&& #[trigger] square_column(dag, i) < fourth_column(dag, i) < num_private_vars(dag)
                &&& node_column(dag, i) != square_column(dag, i)
                &&& node_column(dag, i) != fourth_column(dag, i)
            },
        forall|i: int, b: int|
            0 <= i < b < dag.nodes.len() && dag.nodes[i].op is Pow5 ==> #[trigger] square_column(dag, i)
                != #[trigger] node_column(dag, b) && fourth_column(dag, i) != node_column(dag, b),
{
    let n = dag.nodes.len() as int;
    let nv = num_private_vars(dag);
    assert forall|a: int| 0 <= a < n implies #[trigger] node_column(dag, a) != const_column(dag) by {
        lemma_private_before_monotone(dag, a + 1, n);
    }
    assert forall|a: int, b: int|
        0 <= a < b < n implies #[trigger] node_column(dag, a) != #[trigger] node_column(dag, b) by {
        lemma_private_before_monotone(dag, a + 1, n);
        lemma_private_before_monotone(dag, b + 1, n);
        lemma_private_before_monotone(dag, a + 1, b);
        if is_circuit_input(dag, a) && is_circuit_input(dag, b) {
            super::layout::lemma_circuit_inputs_upto_monotone(dag, a + 1, b);
        }
    }
    assert forall|i: int|
        0 <= i < n && dag.nodes[i].op is Pow5 implies {
            &&& #[trigger] square_column(dag, i) < fourth_column(dag, i) < num_private_vars(dag)
            &&& node_column(dag, i) != square_column(dag, i)
            &&& node_column(dag, i) != fourth_column(dag, i)
        } by {
        lemma_private_before_monotone(dag, i + 1, n);
    }
    assert forall|i: int, b: int|
        0 <= i < b < n && dag.nodes[i].op is Pow5 implies #[trigger] square_column(dag, i)
            != #[trigger] node_column(dag, b) && fourth_column(dag, i) != node_column(dag, b) by {
        lemma_private_before_monotone(dag, i + 1, b);
        lemma_private_before_monotone(dag, b + 1, n);
        lemma_private_before_monotone(dag, i + 1, n);
    }
}

/// No entry at column `j`: the coefficient sum at `j` is zero.
pub proof fn lemma_col_coeff_absent(vs: Seq<(int, int, nat)>, r: int, j: int)
    requires
        forall|k: int| 0 <= k < vs.len() ==> (#[trigger] vs[k]).1 != j,
    ensures
        col_coeff(vs, r, j) == 0,
    decreases vs.len(),
{
    if vs.len() > 0 {
        assert forall|k: int| 0 <= k < vs.drop_last().len() implies (#[trigger] vs.drop_last()[k]).1 != j by {
            assert(vs.drop_last()[k] == vs[k]);
        }
        lemma_col_coeff_absent(vs.drop_last(), r, j);
        assert(vs.last() == vs[vs.len() - 1]);
    }
}

/// Sums over a single entry.
pub proof fn lemma_single_sums(x: (int, int, nat), r: int, j: int, z: Seq<int>)
    ensures
        col_coeff(seq![x], r, j) == if x.0 == r && x.1 == j {
            x.2 as int
        } else {
            0
        },
        super::solver::dot_except(seq![x], r, j, z) == if x.0 == r && x.1 != j {
            x.2 * z[x.1]
        } else {
            0
        },
{
    assert(seq![x].drop_last() =~= Seq::<(int, int, nat)>::empty());
    assert(seq![x].last() == x);
    assert(col_coeff(Seq::<(int, int, nat)>::empty(), r, j) == 0);
    assert(super::solver::dot_except(Seq::<(int, int, nat)>::empty(), r, j, z) == 0);
}

/// Minus one and one are nonzero modulo ℓ.
pub proof fn lemma_unit_residues()
    ensures
        (-1int) % (field_order() as int) != 0,
        1int % (field_order() as int) != 0,
{
    let p = field_order() as int;
    vstd::arithmetic::div_mod::lemma_mod_multiples_vanish(-1, p - 1, p);
    vstd::arithmetic::div_mod::lemma_small_mod((p - 1) as nat, p as nat);
    vstd::arithmetic::div_mod::lemma_small_mod(1, p as nat);
}

/// The column that row `row_start(i) + t` of node `i` determines: the square and the
/// fourth power for the first two rows of a `Pow5` node, the node's own column
/// otherwise.
pub open spec fn row_target(dag: DAG, i: int, t: int) -> nat {
    if dag.nodes[i].op is Pow5 && t == 0 {
        square_column(dag, i)
    } else if dag.nodes[i].op is Pow5 && t == 1 {
        fourth_column(dag, i)
    } else {
        node_column(dag, i)
    }
}

/// A row whose C side is the single target column with coefficient 1, and whose
/// other columns are solved, determines the target.
pub proof fn lemma_forward_row(
    inst: SpartanInstance,
    r: int,
    s: Seq<bool>,
    z: Seq<int>,
    va: Seq<(int, int, nat)>,
    vb: Seq<(int, int, nat)>,
    j: usize,
)
    requires
        matches_row(row_entries(inst.A@, r), va),
        matches_row(row_entries(inst.B@, r), vb),
        matches_row(row_entries(inst.C@, r), seq![unit(r, j as nat)]),
        j < s.len(),
        !s[j as int],
        forall|k: int|
            0 <= k < va.len() ==> (#[trigger] va[k]).0 == r && va[k].1 != j && 0 <= va[k].1 < s.len() && s[va[k].1],
        forall|k: int|
            0 <= k < vb.len() ==> (#[trigger] vb[k]).0 == r && vb[k].1 != j && 0 <= vb[k].1 < s.len() && s[vb[k].1],
    ensures
        super::solver::row_determines(inst, r, s, z, j),
{
    let vc = seq![unit(r, j as nat)];
    let ea = row_entries(inst.A@, r);
    let eb = row_entries(inst.B@, r);
    let ec = row_entries(inst.C@, r);
    assert(vc[0] == unit(r, j as nat));
    lemma_matched_unique_unsolved(ea, eb, ec, va, vb, vc, s, j, false, 0);
    assert forall|k: int| 0 <= k < vc.len() implies (#[trigger] vc[k]).0 == r by {}
    lemma_matched_sums(ea, va, r, j, z);
    lemma_matched_sums(eb, vb, r, j, z);
    lemma_matched_sums(ec, vc, r, j, z);
    lemma_col_coeff_absent(va, r, j as int);
    lemma_col_coeff_absent(vb, r, j as int);
    lemma_single_sums(unit(r, j as nat), r, j as int, z);
    let d = super::solver::step_denominator(ea, eb, ec, j, z);
    assert(super::solver::sum_at(ec, j) == 1);
    assert(super::solver::sum_at(ea, j) == 0);
    assert(super::solver::sum_at(eb, j) == 0);
    assert(d == -1);
    lemma_unit_residues();
}

/// An alias row `out * 1 = src` with `src` solved and the constant 1 in place
/// determines `out`.
pub proof fn lemma_alias_row(
    inst: SpartanInstance,
    r: int,
    s: Seq<bool>,
    z: Seq<int>,
    out: usize,
    one: usize,
    src: usize,
)
    requires
        matches_row(row_entries(inst.A@, r), seq![unit(r, out as nat)]),
        matches_row(row_entries(inst.B@, r), seq![unit(r, one as nat)]),
        matches_row(row_entries(inst.C@, r), seq![unit(r, src as nat)]),
        out < s.len(),
        one < s.len(),
        src < s.len(),
        one < z.len(),
        z[one as int] == 1,
        out != one,
        out != src,
        !s[out as int],
        s[one as int],
        s[src as int],
    ensures
        super::solver::row_determines(inst, r, s, z, out),
{
    let va = seq![unit(r, out as nat)];
    let vb = seq![unit(r, one as nat)];
    let vc = seq![unit(r, src as nat)];
    let ea = row_entries(inst.A@, r);
    let eb = row_entries(inst.B@, r);
    let ec = row_entries(inst.C@, r);
    let j = out;
    assert(va[0] == unit(r, out as nat));
    assert(vb[0] == unit(r, one as nat));
    assert(vc[0] == unit(r, src as nat));
    lemma_matched_unique_unsolved(ea, eb, ec, va, vb, vc, s, j, true, 0);
    assert forall|k: int| 0 <= k < va.len() implies (#[trigger] va[k]).0 == r by {}
    assert forall|k: int| 0 <= k < vb.len() implies (#[trigger] vb[k]).0 == r by {}
    assert forall|k: int| 0 <= k < vc.len() implies (#[trigger] vc[k]).0 == r by {}
    lemma_matched_sums(ea, va, r, j, z);
    lemma_matched_sums(eb, vb, r, j, z);
    lemma_matched_sums(ec, vc, r, j, z);
    lemma_single_sums(unit(r, out as nat), r, out as int, z);
    lemma_single_sums(unit(r, one as nat), r, out as int, z);
    lemma_single_sums(unit(r, src as nat), r, out as int, z);
    let d = super::solver::step_denominator(ea, eb, ec, j, z);
    assert(super::solver::sum_at(ea, j) == 1);
    assert(super::solver::sum_except(eb, j, z) == 1);
    assert(super::solver::sum_at(eb, j) == 0);
    assert(super::solver::sum_at(ec, j) == 0);
    assert(d == 1);
    lemma_unit_residues();
}

/// The z-vector of a DAG instance fits in `usize`.
pub proof fn lemma_width_fits(dag: DAG)
    requires
        node_count_fits(dag.nodes.len() as nat),
        dag.num_outputs <= dag.nodes.len(),
    ensures
        num_private_vars(dag) + 1 + super::layout::num_public_io(dag) <= usize::MAX,
{
    let n = dag.nodes.len() as int;
    super::layout::lemma_private_before_bounded(dag, n);
    super::layout::lemma_circuit_inputs_upto_len(dag, n);
}

/// A well-formed DAG has assignable columns.
pub proof fn lemma_well_formed_assignable(dag: DAG)
    requires
        dag.is_well_formed(),
        node_count_fits(dag.nodes.len() as nat),
    ensures
        super::layout::columns_assignable(dag),
{
    assert forall|i: int, k: int|
        0 <= i < dag.nodes.len() && 0 <= k < op_operands(dag.nodes[i].op).len() implies (
        #[trigger] op_operands(dag.nodes[i].op)[k]) < dag.nodes.len() by {}
}

/// What the determination of node `i`'s row `t` needs: a well-formed DAG and its
/// instance, a solver state with the constant 1 in place, the node's operands solved,
/// the earlier intermediate columns of a `Pow5` node solved, and the target unsolved.
pub open spec fn determination_ready(dag: DAG, inst: SpartanInstance, s: Seq<bool>, z: Seq<int>, i: int, t: int) -> bool {
    &&& dag.is_well_formed()
    &&& node_count_fits(dag.nodes.len() as nat)
    &&& describes_instance(inst, dag)
    &&& 0 <= i < dag.nodes.len()
    &&& !(dag.nodes[i].op is Input)
    &&& 0 <= t < op_constraint_count(dag.nodes[i].op)
    &&& s.len() == num_private_vars(dag) + 1 + super::layout::num_public_io(dag)
    &&& z.len() == s.len()
    &&& s[const_column(dag) as int]
    &&& z[const_column(dag) as int] == 1
    &&& forall|k: int|
        0 <= k < op_operands(dag.nodes[i].op).len() ==> s[node_column(
            dag,
            #[trigger] op_operands(dag.nodes[i].op)[k] as int,
        ) as int]
    &&& dag.nodes[i].op is Pow5 && t >= 1 ==> s[square_column(dag, i) as int]
    &&& dag.nodes[i].op is Pow5 && t == 2 ==> s[fourth_column(dag, i) as int]
    &&& !s[row_target(dag, i, t) as int]
}

/// Facts shared by the determination lemmas.
proof fn lemma_determination_setup(dag: DAG, inst: SpartanInstance, s: Seq<bool>, z: Seq<int>, i: int, t: int)
    requires
        determination_ready(dag, inst, s, z, i, t),
    ensures
        super::layout::columns_assignable(dag),
        num_private_vars(dag) + 1 + super::layout::num_public_io(dag) <= usize::MAX,
        const_column(dag) < s.len(),
        forall|id: int| 0 <= id < dag.nodes.len() ==> #[trigger] node_column(dag, id) < s.len(),
        forall|id: int| 0 <= id < dag.nodes.len() && dag.nodes[id].op is Pow5 ==> #[trigger] square_column(dag, id) + 1 < num_private_vars(dag),
        forall|a: int| 0 <= a < dag.nodes.len() ==> #[trigger] node_column(dag, a) != const_column(dag),
        forall|a: int, b: int|
            0 <= a < b < dag.nodes.len() ==> #[trigger] node_column(dag, a) != #[trigger] node_column(dag, b),
        forall|q: int|
            0 <= q < dag.nodes.len() && dag.nodes[q].op is Pow5 ==> {
                &&& #[trigger] square_column(dag, q) < fourth_column(dag, q) < num_private_vars(dag)
                &&& node_column(dag, q) != square_column(dag, q)
                &&& node_column(dag, q) != fourth_column(dag, q)
            },
        forall|q: int, b: int|
            0 <= q < b < dag.nodes.len() && dag.nodes[q].op is Pow5 ==> #[trigger] square_column(dag, q)
                != #[trigger] node_column(dag, b) && fourth_column(dag, q) != node_column(dag, b),
        forall|k: int|
            0 <= k < op_operands(dag.nodes[i].op).len() ==> i < #[trigger] op_operands(dag.nodes[i].op)[k]
                < dag.nodes.len(),
        matches_row(row_entries(inst.A@, row_start(dag, i) + t), node_row(dag, i, t, 0)),
        matches_row(row_entries(inst.B@, row_start(dag, i) + t), node_row(dag, i, t, 1)),
        matches_row(row_entries(inst.C@, row_start(dag, i) + t), node_row(dag, i, t, 2)),
{
    lemma_well_formed_assignable(dag);
    lemma_width_fits(dag);
    super::r1cs::lemma_columns_in_bounds(dag);
    lemma_columns_apart(dag);
    lemma_dag_row_entries(dag, inst, i, t, 0);
    lemma_dag_row_entries(dag, inst, i, t, 1);
    lemma_dag_row_entries(dag, inst, i, t, 2);
}

/// Determination of the row of an alias.
proof fn lemma_alias_determines(dag: DAG, inst: SpartanInstance, s: Seq<bool>, z: Seq<int>, i: int, t: int)
    requires
        determination_ready(dag, inst, s, z, i, t),
        dag.nodes[i].op is Alias,
    ensures
        super::solver::row_determines(inst, row_start(dag, i) + t, s, z, row_target(dag, i, t) as usize),
{
    lemma_determination_setup(dag, inst, s, z, i, t);
    let r0 = row_start(dag, i) as int;
    let r = r0 + t;
    let one = const_column(dag);
    let out = node_column(dag, i);
    let ops = op_operands(dag.nodes[i].op);
    if let OpType::Alias(src) = dag.nodes[i].op {
        assert(ops[0] == src);
        let cs = node_column(dag, src as int);
        lemma_filter_one(unit(r0, out), r);
        lemma_filter_one(unit(r0, one), r);
        lemma_filter_one(unit(r0, cs), r);
        assert(node_row(dag, i, t, 0) == seq![unit(r, out)]);
        assert(node_row(dag, i, t, 1) == seq![unit(r, one)]);
        assert(node_row(dag, i, t, 2) == seq![unit(r, cs)]);
        lemma_alias_row(inst, r, s, z, out as usize, one as usize, cs as usize);
    }
}

/// Determination of the row of an addition.
#[verifier::spinoff_prover]
#[verifier::rlimit(30)]
proof fn lemma_add_determines(dag: DAG, inst: SpartanInstance, s: Seq<bool>, z: Seq<int>, i: int, t: int)
    requires
        determination_ready(dag, inst, s, z, i, t),
        dag.nodes[i].op is Add,
    ensures
        super::solver::row_determines(inst, row_start(dag, i) + t, s, z, row_target(dag, i, t) as usize),
{
    lemma_determination_setup(dag, inst, s, z, i, t);
    let r0 = row_start(dag, i) as int;
    let r = r0 + t;
    let one = const_column(dag);
    let out = node_column(dag, i);
    let ops = op_operands(dag.nodes[i].op);
    if let OpType::Add(a, b) = dag.nodes[i].op {
        assert(ops[0] == a && ops[1] == b);
        let ca = node_column(dag, a as int);
        let cb = node_column(dag, b as int);
        lemma_filter_one(unit(r0, ca), r);
        lemma_filter_two(unit(r0, ca), unit(r0, cb), r);
        lemma_filter_one(unit(r0, one), r);
        lemma_filter_one(unit(r0, out), r);
        let va = seq![unit(r, ca), unit(r, cb)];
        assert(node_row(dag, i, t, 0) =~= va);
        assert(node_row(dag, i, t, 1) == seq![unit(r, one)]);
        assert(node_row(dag, i, t, 2) == seq![unit(r, out)]);
        let vb = seq![unit(r, one)];
        assert forall|k: int| 0 <= k < va.len() implies (#[trigger] va[k]).0 == r && va[k].1 != out
            && 0 <= va[k].1 < s.len() && s[va[k].1] by {
            if k == 0 {
                assert(va[k] == unit(r, ca));
            } else {
                assert(va[k] == unit(r, cb));
            }
        }
        assert forall|k: int| 0 <= k < vb.len() implies (#[trigger] vb[k]).0 == r && vb[k].1 != out
            && 0 <= vb[k].1 < s.len() && s[vb[k].1] by {
            assert(vb[k] == unit(r, one));
        }
        lemma_forward_row(inst, r, s, z, va, vb, out as usize);
    }
}

/// Determination of the row of a multiplication.
proof fn lemma_mul_determines(dag: DAG, inst: SpartanInstance, s: Seq<bool>, z: Seq<int>, i: int, t: int)
    requires
        determination_ready(dag, inst, s, z, i, t),
        dag.nodes[i].op is Mul,
    ensures
        super::solver::row_determines(inst, row_start(dag, i) + t, s, z, row_target(dag, i, t) as usize),
{
    lemma_determination_setup(dag, inst, s, z, i, t);
    let r0 = row_start(dag, i) as int;
    let r = r0 + t;
    let one = const_column(dag);
    let out = node_column(dag, i);
    let ops = op_operands(dag.nodes[i].op);
    if let OpType::Mul(a, b) = dag.nodes[i].op {
        assert(ops[0] == a && ops[1] == b);
        let ca = node_column(dag, a as int);
        let cb = node_column(dag, b as int);
        lemma_filter_one(unit(r0, ca), r);
        lemma_filter_one(unit(r0, cb), r);
        lemma_filter_one(unit(r0, out), r);
        let va = seq![unit(r, ca)];
        let vb = seq![unit(r, cb)];
        assert(node_row(dag, i, t, 0) == va);
        assert(node_row(dag, i, t, 1) == vb);
        assert(node_row(dag, i, t, 2) == seq![unit(r, out)]);
        assert forall|k: int| 0 <= k < va.len() implies (#[trigger] va[k]).0 == r && va[k].1 != out
            && 0 <= va[k].1 < s.len() && s[va[k].1] by {
            assert(va[k] == unit(r, ca));
    }
    assert forall|k: int| 0 <= k < vb.len() implies (#[trigger] vb[k]).0 == r && vb[k].1 != out
        && 0 <= vb[k].1 < s.len() && s[vb[k].1] by {
        assert(vb[k] == unit(r, cb));
    }
    lemma_forward_row(inst, r, s, z, va, vb, out as usize);
    }
}

/// Determination of the row of a scaling.
proof fn lemma_scale_determines(dag: DAG, inst: SpartanInstance, s: Seq<bool>, z: Seq<int>, i: int, t: int)
    requires
        determination_ready(dag, inst, s, z, i, t),
        dag.nodes[i].op is Scale,
    ensures
        super::solver::row_determines(inst, row_start(dag, i) + t, s, z, row_target(dag, i, t) as usize),
{
    lemma_determination_setup(dag, inst, s, z, i, t);
    let r0 = row_start(dag, i) as int;
    let r = r0 + t;
    let one = const_column(dag);
    let out = node_column(dag, i);
    let ops = op_operands(dag.nodes[i].op);
    if let OpType::Scale(src, k) = dag.nodes[i].op {
        assert(ops[0] == src);
        let cs = node_column(dag, src as int);
        let va = if k == 0 {
            Seq::<(int, int, nat)>::empty()
        } else {
            seq![(r, cs as int, k as nat)]
        };
        if k == 0 {
            lemma_filter_none(Seq::<(int, int, nat)>::empty(), r);
        } else {
            lemma_filter_one((r0, cs as int, k as nat), r);
    }
    lemma_filter_one(unit(r0, one), r);
    lemma_filter_one(unit(r0, out), r);
    let vb = seq![unit(r, one)];
    assert(node_row(dag, i, t, 0) == va);
    assert(node_row(dag, i, t, 1) == vb);
    assert(node_row(dag, i, t, 2) == seq![unit(r, out)]);
    assert forall|q: int| 0 <= q < va.len() implies (#[trigger] va[q]).0 == r && va[q].1 != out
        && 0 <= va[q].1 < s.len() && s[va[q].1] by {
        assert(va[q] == (r, cs as int, k as nat));
    }
    assert forall|q: int| 0 <= q < vb.len() implies (#[trigger] vb[q]).0 == r && vb[q].1 != out
        && 0 <= vb[q].1 < s.len() && s[vb[q].1] by {
        assert(vb[q] == unit(r, one));
    }
    lemma_forward_row(inst, r, s, z, va, vb, out as usize);
    }
}

/// Determination of a row of a fifth power.
proof fn lemma_pow5_determines(dag: DAG, inst: SpartanInstance, s: Seq<bool>, z: Seq<int>, i: int, t: int)
    requires
        determination_ready(dag, inst, s, z, i, t),
        dag.nodes[i].op is Pow5,
    ensures
        super::solver::row_determines(inst, row_start(dag, i) + t, s, z, row_target(dag, i, t) as usize),
{
    lemma_determination_setup(dag, inst, s, z, i, t);
    let r0 = row_start(dag, i) as int;
    let r = r0 + t;
    let one = const_column(dag);
    let out = node_column(dag, i);
    let ops = op_operands(dag.nodes[i].op);
    if let OpType::Pow5(src) = dag.nodes[i].op {
        assert(ops[0] == src);
        let cs = node_column(dag, src as int);
        let sq = square_column(dag, i);
        let qd = fourth_column(dag, i);
        lemma_filter_one(unit(r0, cs), r);
        lemma_filter_two(unit(r0, cs), unit(r0 + 1, sq), r);
        lemma_filter_three(unit(r0, cs), unit(r0 + 1, sq), unit(r0 + 2, qd), r);
        lemma_filter_two(unit(r0, cs), unit(r0 + 1, sq), r);
        lemma_filter_three(unit(r0, cs), unit(r0 + 1, sq), unit(r0 + 2, cs), r);
        lemma_filter_one(unit(r0, sq), r);
        lemma_filter_two(unit(r0, sq), unit(r0 + 1, qd), r);
        lemma_filter_three(unit(r0, sq), unit(r0 + 1, qd), unit(r0 + 2, out), r);
        let (ca, cb, target) = if t == 0 {
            (cs, cs, sq)
        } else if t == 1 {
            (sq, sq, qd)
        } else {
            (qd, cs, out)
        };
        let va = seq![unit(r, ca)];
        let vb = seq![unit(r, cb)];
        assert(node_row(dag, i, t, 0) =~= va);
        assert(node_row(dag, i, t, 1) =~= vb);
        assert(node_row(dag, i, t, 2) =~= seq![unit(r, target)]);
        assert(target == row_target(dag, i, t));
        assert forall|q: int| 0 <= q < va.len() implies (#[trigger] va[q]).0 == r && va[q].1 != target
            && 0 <= va[q].1 < s.len() && s[va[q].1] by {
            assert(va[q] == unit(r, ca));
    }
    assert forall|q: int| 0 <= q < vb.len() implies (#[trigger] vb[q]).0 == r && vb[q].1 != target
        && 0 <= vb[q].1 < s.len() && s[vb[q].1] by {
        assert(vb[q] == unit(r, cb));
    }
    lemma_forward_row(inst, r, s, z, va, vb, target as usize);
    }
}

/// Row `row_start(i) + t` of a non-input node determines its target column once every
/// other column of the row is solved.
pub proof fn lemma_node_determines(dag: DAG, inst: SpartanInstance, s: Seq<bool>, z: Seq<int>, i: int, t: int)
    requires
        determination_ready(dag, inst, s, z, i, t),
    ensures
        super::solver::row_determines(inst, row_start(dag, i) + t, s, z, row_target(dag, i, t) as usize),
{
    match dag.nodes[i].op {
        OpType::Alias(_) => lemma_alias_determines(dag, inst, s, z, i, t),
        OpType::Add(_, _) => lemma_add_determines(dag, inst, s, z, i, t),
        OpType::Mul(_, _) => lemma_mul_determines(dag, inst, s, z, i, t),
        OpType::Scale(_, _) => lemma_scale_determines(dag, inst, s, z, i, t),
        OpType::Pow5(_) => lemma_pow5_determines(dag, inst, s, z, i, t),
        _ => {},
    }
}

/// The columns that node `o` owns are solved.
pub open spec fn node_solved(dag: DAG, s: Seq<bool>, o: int) -> bool {
    &&& s[node_column(dag, o) as int]
    &&& dag.nodes[o].op is Pow5 ==> s[square_column(dag, o) as int] && s[fourth_column(dag, o) as int]
}

/// A solver state on a DAG instance in which no row determines any column.
pub open spec fn fixed_point_on_dag(
    dag: DAG,
    inst: SpartanInstance,
    inputs: Seq<FieldElement>,
    zs: Seq<FieldElement>,
    s: Seq<bool>,
) -> bool {
    &&& dag.is_well_formed()
    &&& dag.outputs_are_computed()
    &&& node_count_fits(dag.nodes.len() as nat)
    &&& describes_instance(inst, dag)
    &&& inputs.len() == circuit_input_ids(dag).len()
    &&& zs.len() == instance_width(inst)
    &&& s.len() == zs.len()
    &&& s[inst.num_vars as int]
    &&& zs[inst.num_vars as int].value() == 1
    &&& super::solver::inputs_placed(zs, s, inst.num_vars + 1 + dag.num_outputs, inputs)
    &&& forall|r: int, j: usize| 0 <= r < inst.num_cons ==> !#[trigger] super::solver::row_determines(inst, r, s, z_values(zs), j)
}

/// In a fixed point of the solver on a DAG instance, every node from `i` on has its
/// columns solved: by descending induction, a node's operands come after it, so its
/// rows would otherwise determine its columns one after the other.
pub proof fn lemma_fixed_point_solves_from(
    dag: DAG,
    inst: SpartanInstance,
    inputs: Seq<FieldElement>,
    zs: Seq<FieldElement>,
    s: Seq<bool>,
    i: int,
)
    requires
        fixed_point_on_dag(dag, inst, inputs, zs, s),
        0 <= i <= dag.nodes.len(),
    ensures
        forall|o: int| i <= o < dag.nodes.len() ==> #[trigger] node_solved(dag, s, o),
    decreases dag.nodes.len() - i,
{
    let n = dag.nodes.len() as int;
    if i < n {
        lemma_fixed_point_solves_from(dag, inst, inputs, zs, s, i + 1);
        let z = z_values(zs);
        let nv = inst.num_vars as int;
        assert(z[nv] == 1);
        if dag.nodes[i].op is Input {
            assert(i >= dag.num_outputs);
            super::witness::lemma_rank_of_circuit_input(dag, i);
            let k = circuit_inputs_upto(dag, i).len() as int;
            super::solver::lemma_input_placed_at(zs, s, nv + 1 + dag.num_outputs, inputs, k);
        } else {
            let ops = op_operands(dag.nodes[i].op);
            assert forall|k: int| 0 <= k < ops.len() implies s[node_column(dag, #[trigger] ops[k] as int) as int] by {
                assert(node_solved(dag, s, ops[k] as int));
            }
            lemma_row_start_step(dag, i);
            lemma_rows_from_antitone(dag, 0, i);
            lemma_rows_from_total(dag);
            let cost = op_constraint_count(dag.nodes[i].op);
            let r0 = row_start(dag, i) as int;
            if !s[row_target(dag, i, 0) as int] {
                assert(determination_ready(dag, inst, s, z, i, 0));
                lemma_node_determines(dag, inst, s, z, i, 0);
                assert(!super::solver::row_determines(inst, r0, s, z, row_target(dag, i, 0) as usize));
            }
            if cost >= 2 && !s[row_target(dag, i, 1) as int] {
                assert(determination_ready(dag, inst, s, z, i, 1));
                lemma_node_determines(dag, inst, s, z, i, 1);
                assert(!super::solver::row_determines(inst, r0 + 1, s, z, row_target(dag, i, 1) as usize));
            }
            if cost >= 3 && !s[row_target(dag, i, 2) as int] {
                assert(determination_ready(dag, inst, s, z, i, 2));
                lemma_node_determines(dag, inst, s, z, i, 2);
                assert(!super::solver::row_determines(inst, r0 + 2, s, z, row_target(dag, i, 2) as usize));
            }
            assert(node_solved(dag, s, i));
        }
    }
}

/// Every private column belongs to some node: it lies among that node's slots.
pub proof fn lemma_private_owner(dag: DAG, n: int, c: int) -> (i: int)
    requires
        0 <= n <= dag.nodes.len(),
        0 <= c < private_before(dag, n),
    ensures
        0 <= i < n,
        private_before(dag, i) <= c < private_before(dag, i + 1),
    decreases n,
{
    if c < private_before(dag, n - 1) {
        lemma_private_owner(dag, n - 1, c)
    } else {
        n - 1
    }
}

/// The solver never stalls on the instance built from a DAG whose outputs are
/// computed: in any state where no row determines a column, every private variable
/// and every output is already solved.
pub proof fn lemma_dag_never_stalls(
    dag: DAG,
    inst: SpartanInstance,
    inputs: Seq<FieldElement>,
    zs: Seq<FieldElement>,
    s: Seq<bool>,
)
    requires
        dag.is_well_formed(),
        dag.outputs_are_computed(),
        node_count_fits(dag.nodes.len() as nat),
        describes_instance(inst, dag),
        inputs.len() == circuit_input_ids(dag).len(),
    ensures
        !super::solver::stalled(inst, dag.num_outputs as nat, inputs, zs, s),
{
    let n = dag.nodes.len() as int;
    if super::solver::stalled(inst, dag.num_outputs as nat, inputs, zs, s) {
        assert(fixed_point_on_dag(dag, inst, inputs, zs, s));
        lemma_fixed_point_solves_from(dag, inst, inputs, zs, s, 0);
        let nv = inst.num_vars as int;
        let c = choose|c: int| super::solver::unknown_column(inst, dag.num_outputs as nat, c) && !#[trigger] s[c];
        if c < nv {
            let i = lemma_private_owner(dag, n, c);
            assert(node_solved(dag, s, i));
            if !is_public_node(dag, i) && c == private_before(dag, i) {
                assert(node_column(dag, i) == c);
            } else {
                assert(dag.nodes[i].op is Pow5);
                assert(c == square_column(dag, i) || c == fourth_column(dag, i));
            }
        } else {
            let o = c - nv - 1;
            assert(0 <= o < dag.num_outputs);
            assert(node_column(dag, o) == c);
            assert(node_solved(dag, s, o));
        }
    }
}

/// The coefficient sum of a row only reads the row's entries.
pub proof fn lemma_col_coeff_filter(m: Seq<(int, int, nat)>, r: int, j: int)
    ensures
        col_coeff(m, r, j) == col_coeff(m.filter(row_is(r)), r, j),
    decreases m.len(),
{
    if m.len() > 0 {
        let prev = m.drop_last();
        let e = m.last();
        lemma_col_coeff_filter(prev, r, j);
        assert(m =~= prev.push(e));
        prev.lemma_filter_push(e, row_is(r));
        if e.0 == r {
            assert(prev.filter(row_is(r)).push(e).drop_last() =~= prev.filter(row_is(r)));
        }
    }
}

/// When every entry of row `r` in the row's own entries sits at column `j`, so does
/// every entry of row `r` in the whole matrix.
pub proof fn lemma_row_only_filter(m: Seq<(int, int, nat)>, r: int, j: int)
    requires
        row_only_at(m.filter(row_is(r)), r, j),
    ensures
        row_only_at(m, r, j),
    decreases m.len(),
{
    if m.len() > 0 {
        let prev = m.drop_last();
        let e = m.last();
        assert(m =~= prev.push(e));
        prev.lemma_filter_push(e, row_is(r));
        let f = prev.filter(row_is(r));
        if e.0 == r {
            assert forall|k: int| 0 <= k < f.len() && (#[trigger] f[k]).0 == r implies f[k].1 == j by {
                assert(f.push(e)[k] == f[k]);
            }
            assert(f.push(e)[f.len() as int] == e);
        }
        lemma_row_only_filter(prev, r, j);
        assert forall|k: int| 0 <= k < m.len() && (#[trigger] m[k]).0 == r implies m[k].1 == j by {
            if k < prev.len() {
                assert(m[k] == prev[k]);
            }
        }
    }
}

/// Rows of single entries are linear in every column when the A and B entries
/// share a column only apart from the C entry.
pub proof fn lemma_single_rows_linear(r: int, ca: nat, cb: nat, cc: nat, j: int)
    requires
        ca == cb ==> cc != ca,
    ensures
        row_linear_at(seq![unit(r, ca)], seq![unit(r, cb)], seq![unit(r, cc)], r, j),
{
    let z = Seq::<int>::empty();
    lemma_single_sums(unit(r, ca), r, j, z);
    lemma_single_sums(unit(r, cb), r, j, z);
    lemma_single_sums(unit(r, cc), r, j, z);
    lemma_unit_residues();
    let va = seq![unit(r, ca)];
    let vb = seq![unit(r, cb)];
    let vc = seq![unit(r, cc)];
    let x = col_coeff(va, r, j);
    let y = col_coeff(vb, r, j);
    if !(ca == j && cb == j) {
        assert(x == 0 || y == 0);
        assert(x * y == 0) by (nonlinear_arith)
            requires
                x == 0 || y == 0,
        ;
        assert(0int % (field_order() as int) == 0);
    } else {
        assert(col_coeff(vc, r, j) == 0);
        assert(0int % (field_order() as int) == 0);
    }
    if ca == j && cb == j {
        assert(row_only_at(va, r, j)) by {
            assert forall|k: int| 0 <= k < va.len() && (#[trigger] va[k]).0 == r implies va[k].1 == j by {
                assert(va[k] == unit(r, ca));
            }
        }
        assert(row_only_at(vb, r, j)) by {
            assert forall|k: int| 0 <= k < vb.len() && (#[trigger] vb[k]).0 == r implies vb[k].1 == j by {
                assert(vb[k] == unit(r, cb));
            }
        }
    }
}

/// A row whose B side is the single constant column, which A does not hold, is
/// linear in every column.
pub proof fn lemma_const_b_row_linear(va: Seq<(int, int, nat)>, r: int, one: nat, vc: Seq<(int, int, nat)>, j: int)
    requires
        forall|k: int| 0 <= k < va.len() ==> (#[trigger] va[k]).1 != one,
    ensures
        row_linear_at(va, seq![unit(r, one)], vc, r, j),
{
    let z = Seq::<int>::empty();
    lemma_single_sums(unit(r, one), r, j, z);
    if j == one {
        lemma_col_coeff_absent(va, r, j);
    }
    assert(col_coeff(va, r, j) * col_coeff(seq![unit(r, one)], r, j) == 0);
}

/// Every row of the instance built from a DAG is linear in every column.
pub proof fn lemma_dag_rows_linear(dag: DAG, inst: SpartanInstance)
    requires
        dag.is_well_formed(),
        node_count_fits(dag.nodes.len() as nat),
        describes_instance(inst, dag),
    ensures
        rows_linear(inst),
{
    assert forall|r: int, j: int| 0 <= r < inst.num_cons implies #[trigger] row_linear_at(
        matrix_view(inst.A@),
        matrix_view(inst.B@),
        matrix_view(inst.C@),
        r,
        j,
    ) by {
        lemma_dag_row_linear(dag, inst, r, j);
    }
}

/// Row `r` of the instance built from a DAG is linear in column `j`.
pub proof fn lemma_dag_row_linear(dag: DAG, inst: SpartanInstance, r: int, j: int)
    requires
        dag.is_well_formed(),
        node_count_fits(dag.nodes.len() as nat),
        describes_instance(inst, dag),
        0 <= r < inst.num_cons,
    ensures
        row_linear_at(matrix_view(inst.A@), matrix_view(inst.B@), matrix_view(inst.C@), r, j),
{
    let n = dag.nodes.len() as int;
    lemma_rows_from_total(dag);
    let i = lemma_row_owner(dag, 0, r);
    lemma_row_start_step(dag, i);
    let r0 = row_start(dag, i) as int;
    let t = r - r0;
    lemma_row_of_node(dag, 0, i, r, 0);
    lemma_row_of_node(dag, 0, i, r, 1);
    lemma_row_of_node(dag, 0, i, r, 2);
    let mva = matrix_view(inst.A@);
    let mvb = matrix_view(inst.B@);
    let mvc = matrix_view(inst.C@);
    let va = node_row(dag, i, t, 0);
    let vb = node_row(dag, i, t, 1);
    let vc = node_row(dag, i, t, 2);
    assert(mva.filter(row_is(r)) == va);
    assert(mvb.filter(row_is(r)) == vb);
    assert(mvc.filter(row_is(r)) == vc);
    lemma_node_row_linear(dag, i, t, j);
    lemma_col_coeff_filter(mva, r, j);
    lemma_col_coeff_filter(mvb, r, j);
    lemma_col_coeff_filter(mvc, r, j);
    if row_only_at(va, r, j) && row_only_at(vb, r, j) {
        lemma_row_only_filter(mva, r, j);
        lemma_row_only_filter(mvb, r, j);
    }
}

/// A node's own rows are linear in every column.
pub proof fn lemma_node_row_linear(dag: DAG, i: int, t: int, j: int)
    requires
        dag.is_well_formed(),
        node_count_fits(dag.nodes.len() as nat),
        0 <= i < dag.nodes.len(),
        0 <= t < op_constraint_count(dag.nodes[i].op),
    ensures
        row_linear_at(
            node_row(dag, i, t, 0),
            node_row(dag, i, t, 1),
            node_row(dag, i, t, 2),
            row_start(dag, i) + t,
            j,
        ),
{
    lemma_well_formed_assignable(dag);
    lemma_columns_apart(dag);
    let r0 = row_start(dag, i) as int;
    let r = r0 + t;
    let one = const_column(dag);
    let out = node_column(dag, i);
    let ops = op_operands(dag.nodes[i].op);
    match dag.nodes[i].op {
        OpType::Alias(src) => {
            let cs = node_column(dag, src as int);
            lemma_filter_one(unit(r0, out), r);
            lemma_filter_one(unit(r0, one), r);
            lemma_filter_one(unit(r0, cs), r);
            lemma_single_rows_linear(r, out, one, cs, j);
        },
        OpType::Mul(a, b) => {
            assert(ops[0] == a && ops[1] == b);
            let ca = node_column(dag, a as int);
            let cb = node_column(dag, b as int);
            lemma_filter_one(unit(r0, ca), r);
            lemma_filter_one(unit(r0, cb), r);
            lemma_filter_one(unit(r0, out), r);
            lemma_single_rows_linear(r, ca, cb, out, j);
        },
        OpType::Add(a, b) => {
            assert(ops[0] == a && ops[1] == b);
            let ca = node_column(dag, a as int);
            let cb = node_column(dag, b as int);
            lemma_filter_one(unit(r0, ca), r);
            lemma_filter_two(unit(r0, ca), unit(r0, cb), r);
            lemma_filter_one(unit(r0, one), r);
            lemma_filter_one(unit(r0, out), r);
            let va = seq![unit(r, ca), unit(r, cb)];
            assert(node_row(dag, i, t, 0) =~= va);
            assert forall|k: int| 0 <= k < va.len() implies (#[trigger] va[k]).1 != one by {
                if k == 0 {
                    assert(va[k] == unit(r, ca));
                } else {
                    assert(va[k] == unit(r, cb));
                }
            }
            lemma_const_b_row_linear(va, r, one, node_row(dag, i, t, 2), j);
        },
        OpType::Scale(src, k) => {
            assert(ops[0] == src);
            let cs = node_column(dag, src as int);
            let va = if k == 0 {
                Seq::<(int, int, nat)>::empty()
            } else {
                seq![(r, cs as int, k as nat)]
            };
            if k == 0 {
                lemma_filter_none(Seq::<(int, int, nat)>::empty(), r);
            } else {
                lemma_filter_one((r0, cs as int, k as nat), r);
            }
            lemma_filter_one(unit(r0, one), r);
            lemma_filter_one(unit(r0, out), r);
            assert(node_row(dag, i, t, 0) == va);
            assert forall|q: int| 0 <= q < va.len() implies (#[trigger] va[q]).1 != one by {
                assert(va[q] == (r, cs as int, k as nat));
            }
            lemma_const_b_row_linear(va, r, one, node_row(dag, i, t, 2), j);
        },
        OpType::Pow5(src) => {
            assert(ops[0] == src);
            let cs = node_column(dag, src as int);
            let sq = square_column(dag, i);
            let qd = fourth_column(dag, i);
            lemma_filter_one(unit(r0, cs), r);
            lemma_filter_two(unit(r0, cs), unit(r0 + 1, sq), r);
            lemma_filter_three(unit(r0, cs), unit(r0 + 1, sq), unit(r0 + 2, qd), r);
            lemma_filter_three(unit(r0, cs), unit(r0 + 1, sq), unit(r0 + 2, cs), r);
            lemma_filter_one(unit(r0, sq), r);
            lemma_filter_two(unit(r0, sq), unit(r0 + 1, qd), r);
            lemma_filter_three(unit(r0, sq), unit(r0 + 1, qd), unit(r0 + 2, out), r);
            let (ca, cb, cc) = if t == 0 {
                (cs, cs, sq)
            } else if t == 1 {
                (sq, sq, qd)
            } else {
                (qd, cs, out)
            };
            assert(node_row(dag, i, t, 0) =~= seq![unit(r, ca)]);
            assert(node_row(dag, i, t, 1) =~= seq![unit(r, cb)]);
            assert(node_row(dag, i, t, 2) =~= seq![unit(r, cc)]);
            lemma_single_rows_linear(r, ca, cb, cc, j);
        },
        _ => {},
    }
}

/// The witness computed from a DAG is a reference assignment of the DAG's instance:
/// it satisfies every row and holds the constant 1 and the circuit inputs.
pub proof fn lemma_witness_is_reference(
    dag: DAG,
    inputs: Seq<FieldElement>,
    inst: SpartanInstance,
    vars: Seq<FieldElement>,
    public_io: Seq<FieldElement>,
)
    requires
        dag.is_well_formed(),
        dag.outputs_are_computed(),
        node_count_fits(dag.nodes.len() as nat),
        inputs_fit(dag, inputs),
        describes_instance(inst, dag),
        is_witness(dag, inputs, vars, public_io),
    ensures
        is_reference(inst, dag.num_outputs as nat, inputs, assignment(vars, public_io)),
{
    lemma_witness_satisfies_instance(dag, inputs, inst, vars, public_io);
    let zr = assignment(vars, public_io);
    let nv = vars.len() as int;
    assert forall|c: int| 0 <= c < zr.len() implies 0 <= #[trigger] zr[c] < field_order() by {
        if c < nv {
            assert(zr[c] == vars[c].value());
        } else if c > nv {
            assert(zr[c] == public_io[c - nv - 1].value());
        }
    }
    assert forall|k: int| 0 <= k < inputs.len() implies zr[inst.num_vars + 1 + dag.num_outputs + k]
        == (#[trigger] inputs[k]).value() by {
        assert(public_io[dag.num_outputs + k] == inputs[k]);
        assert(zr[nv + 1 + dag.num_outputs + k] == public_io[dag.num_outputs + k].value());
    }
}

/// On the instance built from a DAG, the R1CS solver returns exactly the witness
/// computed from the DAG, for every choice of circuit inputs: it neither refuses
/// the inputs nor stalls, and its private variables and public I/O are the DAG's.
#[verifier::spinoff_prover]
pub proof fn lemma_solver_reproduces_witness(
    dag: DAG,
    inputs: Seq<FieldElement>,
    inst: SpartanInstance,
    vars: Seq<FieldElement>,
    public_io: Seq<FieldElement>,
    res: Result<(Vec<FieldElement>, Vec<FieldElement>), WitnessError>,
)
    requires
        dag.is_well_formed(),
        dag.outputs_are_computed(),
        node_count_fits(dag.nodes.len() as nat),
        inputs_fit(dag, inputs),
        describes_instance(inst, dag),
        is_witness(dag, inputs, vars, public_io),
        solver_outcome(inst, dag.num_outputs as nat, inputs, res),
    ensures
        res is Ok,
        res->Ok_0.0@ == vars,
        res->Ok_0.1@ == public_io,
{
    let n_out = dag.num_outputs as nat;
    if res is Err {
        if let Err(WitnessError::SolverStuck { .. }) = res {
            let (zs, s) = choose|zs: Seq<FieldElement>, s: Seq<bool>| super::solver::stalled(inst, n_out, inputs, zs, s);
            lemma_dag_never_stalls(dag, inst, inputs, zs, s);
        }
    } else {
        let w = res->Ok_0;
        lemma_dag_rows_linear(dag, inst);
        lemma_witness_is_reference(dag, inputs, inst, vars, public_io);
        let zr = assignment(vars, public_io);
        let nv = inst.num_vars as int;
        assert(z_values(w.0@) == zr.subrange(0, nv));
        assert(z_values(w.1@) == zr.subrange(nv + 1, instance_width(inst) as int));
        assert(z_values(w.0@).len() == w.0@.len());
        assert(z_values(w.1@).len() == w.1@.len());
        assert(vars.len() == inst.num_vars);
        assert(public_io.len() == inst.num_inputs);
        assert(instance_width(inst) == nv + 1 + inst.num_inputs);
        assert(zr.subrange(0, nv).len() == nv);
        assert(w.0@.len() == vars.len());
        assert(w.1@.len() == public_io.len());
        assert forall|k: int| 0 <= k < vars.len() implies #[trigger] w.0@[k] == vars[k] by {
            assert(z_values(w.0@)[k] == zr[k]);
            crate::field::lemma_value_determines_element(w.0@[k], vars[k]);
        }
        assert forall|k: int| 0 <= k < public_io.len() implies #[trigger] w.1@[k] == public_io[k] by {
            assert(z_values(w.1@)[k] == zr[nv + 1 + k]);
            crate::field::lemma_value_determines_element(w.1@[k], public_io[k]);
        }
        assert(w.0@ =~= vars);
        assert(w.1@ =~= public_io);
    }
}

/// Each matrix of the nodes from `k` on holds at most three entries per node.
pub proof fn lemma_matrix_len(dag: DAG, k: int, w: int)
    requires
        0 <= k <= dag.nodes.len(),
    ensures
        pick(spartan_matrices(dag, k), w).len() <= 3 * (dag.nodes.len() - k),
    decreases dag.nodes.len() - k,
{
    if k < dag.nodes.len() {
        lemma_matrix_len(dag, k + 1, w);
        let prev = pick(spartan_matrices(dag, k + 1), w);
        let e = pick(node_entries(dag, k, row_start(dag, k) as int), w);
        assert(pick(spartan_matrices(dag, k), w) =~= prev + e);
    }
}

/// The instance built from a DAG fits the solver and alias removal: its entries lie
/// inside its rows and z-vector with canonical coefficients, and its matrices
/// together hold at most `usize::MAX` entries.
pub proof fn lemma_dag_instance_fits(dag: DAG, inst: SpartanInstance)
    requires
        dag.is_well_formed(),
        node_count_fits(dag.nodes.len() as nat),
        describes_instance(inst, dag),
    ensures
        super::solver::instance_fits(inst),
        inst.A@.len() + inst.B@.len() + inst.C@.len() <= usize::MAX,
{
    let n = dag.nodes.len() as int;
    lemma_well_formed_assignable(dag);
    lemma_width_fits(dag);
    super::r1cs::lemma_instance_entries_in_bounds(dag, inst);
    lemma_matrix_len(dag, 0, 0);
    lemma_matrix_len(dag, 0, 1);
    lemma_matrix_len(dag, 0, 2);
    assert(matrix_view(inst.A@).len() == inst.A@.len());
    assert(matrix_view(inst.B@).len() == inst.B@.len());
    assert(matrix_view(inst.C@).len() == inst.C@.len());
    assert forall|k: int| 0 <= k < inst.A@.len() implies (#[trigger] inst.A@[k]).0 < inst.num_cons && inst.A@[k].1
        < instance_width(inst) by {
        assert(matrix_view(inst.A@)[k] == entry_view(inst.A@[k]));
    }
    assert forall|k: int| 0 <= k < inst.B@.len() implies (#[trigger] inst.B@[k]).0 < inst.num_cons && inst.B@[k].1
        < instance_width(inst) by {
        assert(matrix_view(inst.B@)[k] == entry_view(inst.B@[k]));
    }
    assert forall|k: int| 0 <= k < inst.C@.len() implies (#[trigger] inst.C@[k]).0 < inst.num_cons && inst.C@[k].1
        < instance_width(inst) by {
        assert(matrix_view(inst.C@)[k] == entry_view(inst.C@[k]));
    }
}

} // verus!
