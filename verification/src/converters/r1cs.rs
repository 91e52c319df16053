//! Satisfaction of an R1CS instance, and the proof that the witness computed from
//! a DAG satisfies the instance built from the same DAG.
use super::layout::{
    columns_assignable, num_public_io, circuit_input_ids, circuit_inputs_upto, const_column, is_circuit_input, is_public_node,
    lemma_private_before_monotone, node_column, node_count_fits, num_private_vars,
    private_before, private_slots, square_column,
};
use super::spartan::{
    describes_instance, lemma_row_start_step, lemma_rows_from_antitone, lemma_rows_from_total, matrix_view,
    node_entries, row_end, row_start, rows_from, spartan_matrices, unit, SpartanInstance,
};
use super::witness::{
    element_values, fifth_mod, fourth_mod, inputs_fit, is_witness, lemma_rank_of_circuit_input,
    node_private_values, node_value, private_values, square_mod,
};
use crate::dag::graph::{nodes_constraint_total, op_operands, DAG};
use crate::dag::node::{op_constraint_count, OpType};
use crate::field::{field_order, FieldElement};
use vstd::arithmetic::div_mod::{lemma_fundamental_div_mod, lemma_mod_multiples_basic};
use vstd::prelude::*;

verus! {

/// `Σ value · z[column]` over the entries of `m` in row `row`.
pub open spec fn row_dot(m: Seq<(int, int, nat)>, row: int, z: Seq<int>) -> int
    decreases m.len(),
{
    if m.len() == 0 {
        0
    } else {
        row_dot(m.drop_last(), row, z) + if m.last().0 == row {
            m.last().2 * z[m.last().1]
        } else {
            0
        }
    }
}

/// Row `row` holds: `<A,z> * <B,z> = <C,z>` modulo ℓ.
pub open spec fn row_holds(
    a: Seq<(int, int, nat)>,
    b: Seq<(int, int, nat)>,
    c: Seq<(int, int, nat)>,
    row: int,
    z: Seq<int>,
) -> bool {
    (row_dot(a, row, z) * row_dot(b, row, z) - row_dot(c, row, z)) % (field_order() as int) == 0
}

/// The z-vector `[vars, 1, public_io]` as integers.
pub open spec fn assignment(vars: Seq<FieldElement>, public_io: Seq<FieldElement>) -> Seq<int> {
    vars.map_values(|e: FieldElement| e.value() as int) + seq![1int] + public_io.map_values(
        |e: FieldElement| e.value() as int,
    )
}

/// Every constraint of `inst` holds for `z = [vars, 1, public_io]`.
pub open spec fn is_satisfied(
    inst: SpartanInstance,
    vars: Seq<FieldElement>,
    public_io: Seq<FieldElement>,
) -> bool {
    forall|r: int|
        0 <= r < inst.num_cons ==> #[trigger] row_holds(
            matrix_view(inst.A@),
            matrix_view(inst.B@),
            matrix_view(inst.C@),
            r,
            assignment(vars, public_io),
        )
}

/// One of the three matrices of a triple.
pub open spec fn pick<E>(t: (Seq<E>, Seq<E>, Seq<E>), w: int) -> Seq<E> {
    if w == 0 {
        t.0
    } else if w == 1 {
        t.1
    } else {
        t.2
    }
}

/// The witness that the library computes for a DAG satisfies every constraint of
/// the R1CS instance that it builds from the same DAG, for every choice of inputs.
pub proof fn lemma_witness_satisfies_instance(
    dag: DAG,
    inputs: Seq<FieldElement>,
    inst: SpartanInstance,
    vars: Seq<FieldElement>,
    public_io: Seq<FieldElement>,
)
    requires
        dag.is_well_formed(),
        dag.outputs_are_computed(),
        node_count_fits(dag.nodes.len() as nat),
        inputs_fit(dag, inputs),
        describes_instance(inst, dag),
        is_witness(dag, inputs, vars, public_io),
    ensures
        is_satisfied(inst, vars, public_io),
{
    let n = dag.nodes.len() as int;
    let z = assignment(vars, public_io);
    assert forall|r: int| 0 <= r < inst.num_cons implies #[trigger] row_holds(
        matrix_view(inst.A@),
        matrix_view(inst.B@),
        matrix_view(inst.C@),
        r,
        z,
    ) by {
        lemma_rows_from_total(dag);
        let i = lemma_row_owner(dag, 0, r);
        let e = node_entries(dag, i, row_start(dag, i) as int);
        lemma_isolate_row(dag, 0, i, r, z, 0);
        lemma_isolate_row(dag, 0, i, r, z, 1);
        lemma_isolate_row(dag, 0, i, r, z, 2);
        lemma_node_rows_hold(dag, inputs, vars, public_io, i, r);
    }
}

/// Every entry of a matrix lies inside the instance: its row below `num_cons`, its
/// column inside the z-vector `[vars, 1, public inputs]`.
pub open spec fn entries_in_bounds(m: Seq<(int, int, nat)>, num_cons: nat, z_len: nat) -> bool {
    forall|k: int|
        0 <= k < m.len() ==> 0 <= (#[trigger] m[k]).0 < num_cons && 0 <= m[k].1 < z_len
}

/// Width of the z-vector of an instance.
pub open spec fn z_len(inst: SpartanInstance) -> nat {
    (inst.num_vars + 1 + inst.num_inputs) as nat
}

/// Every entry of the instance built from a DAG references a valid constraint row
/// and a valid z-vector column.
pub proof fn lemma_instance_entries_in_bounds(dag: DAG, inst: SpartanInstance)
    requires
        columns_assignable(dag),
        describes_instance(inst, dag),
    ensures
        entries_in_bounds(matrix_view(inst.A@), inst.num_cons as nat, z_len(inst)),
        entries_in_bounds(matrix_view(inst.B@), inst.num_cons as nat, z_len(inst)),
        entries_in_bounds(matrix_view(inst.C@), inst.num_cons as nat, z_len(inst)),
{
    lemma_rows_from_total(dag);
    lemma_columns_in_bounds(dag);
    lemma_matrix_in_bounds(dag, 0, 0);
    lemma_matrix_in_bounds(dag, 0, 1);
    lemma_matrix_in_bounds(dag, 0, 2);
}

/// Node columns, the constant column and the `Pow5` intermediate columns are all
/// inside the z-vector.
pub proof fn lemma_columns_in_bounds(dag: DAG)
    requires
        columns_assignable(dag),
    ensures
        const_column(dag) < num_private_vars(dag) + 1 + num_public_io(dag),
        forall|id: int|
            0 <= id < dag.nodes.len() ==> #[trigger] node_column(dag, id) < num_private_vars(dag)
                + 1 + num_public_io(dag),
        forall|id: int|
            0 <= id < dag.nodes.len() && dag.nodes[id].op is Pow5 ==> #[trigger] square_column(
                dag,
                id,
            ) + 1 < num_private_vars(dag),
{
    let n = dag.nodes.len() as int;
    assert forall|id: int| 0 <= id < n implies #[trigger] node_column(dag, id)
        < num_private_vars(dag) + 1 + num_public_io(dag) by {
        if id < dag.num_outputs {
        } else if dag.nodes[id].op is Input {
            lemma_rank_of_circuit_input(dag, id);
        } else {
            lemma_private_before_monotone(dag, id + 1, n);
        }
    }
    assert forall|id: int| 0 <= id < n && dag.nodes[id].op is Pow5 implies #[trigger] square_column(
        dag,
        id,
    ) + 1 < num_private_vars(dag) by {
        lemma_private_before_monotone(dag, id + 1, n);
    }
}

/// The entries contributed by the nodes from `k` on lie inside the instance.
pub proof fn lemma_matrix_in_bounds(dag: DAG, k: int, w: int)
    requires
        columns_assignable(dag),
        0 <= k <= dag.nodes.len(),
        const_column(dag) < num_private_vars(dag) + 1 + num_public_io(dag),
        forall|id: int|
            0 <= id < dag.nodes.len() ==> #[trigger] node_column(dag, id) < num_private_vars(dag)
                + 1 + num_public_io(dag),
        forall|id: int|
            0 <= id < dag.nodes.len() && dag.nodes[id].op is Pow5 ==> #[trigger] square_column(
                dag,
                id,
            ) + 1 < num_private_vars(dag),
    ensures
        entries_in_bounds(
            pick(spartan_matrices(dag, k), w),
            rows_from(dag, k),
            num_private_vars(dag) + 1 + num_public_io(dag),
        ),
    decreases dag.nodes.len() - k,
{
    if k < dag.nodes.len() {
        let i = k;
        lemma_matrix_in_bounds(dag, k + 1, w);
        lemma_node_entry_rows(dag, i, w);
        lemma_row_start_step(dag, i);
        let zl = num_private_vars(dag) + 1 + num_public_io(dag);
        let prev = pick(spartan_matrices(dag, k + 1), w);
        let e = pick(node_entries(dag, i, row_start(dag, i) as int), w);
        assert(pick(spartan_matrices(dag, k), w) =~= prev + e);
        let ops = op_operands(dag.nodes[i].op);
        assert forall|q: int| 0 <= q < ops.len() implies (#[trigger] ops[q]) < dag.nodes.len() by {
        }
        assert(node_column(dag, i) < zl);
        if ops.len() > 0 {
            assert(node_column(dag, ops[0] as int) < zl);
        }
        if ops.len() > 1 {
            assert(node_column(dag, ops[1] as int) < zl);
        }
        assert forall|q: int| 0 <= q < e.len() implies 0 <= (#[trigger] e[q]).1 < zl by {
        }
        assert forall|q: int| 0 <= q < (prev + e).len() implies 0 <= (#[trigger] (prev + e)[q]).0
            < rows_from(dag, k) && 0 <= (prev + e)[q].1 < zl by {
            if q >= prev.len() {
                assert((prev + e)[q] == e[q - prev.len()]);
            } else {
                assert((prev + e)[q] == prev[q]);
            }
        }
    }
}

/// `(x - x mod ℓ)` is a multiple of ℓ.
pub proof fn lemma_sub_own_mod(x: int)
    ensures
        (x - x % (field_order() as int)) % (field_order() as int) == 0,
{
    let m = field_order() as int;
    lemma_fundamental_div_mod(x, m);
    assert(x - x % m == (x / m) * m) by (nonlinear_arith)
        requires
            x == m * (x / m) + (x % m),
    ;
    lemma_mod_multiples_basic(x / m, m);
}

pub proof fn lemma_row_dot_concat(s1: Seq<(int, int, nat)>, s2: Seq<(int, int, nat)>, r: int, z: Seq<int>)
    ensures
        row_dot(s1 + s2, r, z) == row_dot(s1, r, z) + row_dot(s2, r, z),
    decreases s2.len(),
{
    if s2.len() > 0 {
        lemma_row_dot_concat(s1, s2.drop_last(), r, z);
        assert((s1 + s2).drop_last() =~= s1 + s2.drop_last());
    } else {
        assert(s1 + s2 =~= s1);
    }
}

pub proof fn lemma_row_dot_other_rows(s: Seq<(int, int, nat)>, r: int, z: Seq<int>)
    requires
        forall|k: int| 0 <= k < s.len() ==> (#[trigger] s[k]).0 != r,
    ensures
        row_dot(s, r, z) == 0,
    decreases s.len(),
{
    if s.len() > 0 {
        lemma_row_dot_other_rows(s.drop_last(), r, z);
    }
}

/// The rows of node `i`'s entries lie in `[row_start(i), row_end(i))`.
pub proof fn lemma_node_entry_rows(dag: DAG, i: int, w: int)
    requires
        0 <= i < dag.nodes.len(),
    ensures
        forall|k: int|
            0 <= k < pick(node_entries(dag, i, row_start(dag, i) as int), w).len() ==> row_start(
                dag,
                i,
            ) <= (#[trigger] pick(node_entries(dag, i, row_start(dag, i) as int), w)[k]).0
                < row_end(dag, i),
{
    lemma_row_start_step(dag, i);
}

/// The rows of the entries of the nodes from `k` on lie below `rows_from(k)`.
pub proof fn lemma_matrix_rows_below(dag: DAG, k: int, w: int)
    requires
        0 <= k <= dag.nodes.len(),
    ensures
        forall|q: int|
            0 <= q < pick(spartan_matrices(dag, k), w).len() ==> 0 <= (#[trigger] pick(
                spartan_matrices(dag, k),
                w,
            )[q]).0 < rows_from(dag, k),
    decreases dag.nodes.len() - k,
{
    if k < dag.nodes.len() {
        lemma_matrix_rows_below(dag, k + 1, w);
        lemma_node_entry_rows(dag, k, w);
        lemma_row_start_step(dag, k);
        let prev = pick(spartan_matrices(dag, k + 1), w);
        let e = pick(node_entries(dag, k, row_start(dag, k) as int), w);
        assert(pick(spartan_matrices(dag, k), w) =~= prev + e);
        assert forall|q: int| 0 <= q < (prev + e).len() implies 0 <= (#[trigger] (prev + e)[q]).0
            < rows_from(dag, k) by {
            if q >= prev.len() {
                assert((prev + e)[q] == e[q - prev.len()]);
            } else {
                assert((prev + e)[q] == prev[q]);
            }
        }
    }
}

/// A row owned by node `i` gets its entries from node `i` alone.
pub proof fn lemma_isolate_row(dag: DAG, k: int, i: int, r: int, z: Seq<int>, w: int)
    requires
        0 <= k <= i < dag.nodes.len(),
        row_start(dag, i) <= r < row_end(dag, i),
    ensures
        row_dot(pick(spartan_matrices(dag, k), w), r, z) == row_dot(
            pick(node_entries(dag, i, row_start(dag, i) as int), w),
            r,
            z,
        ),
    decreases i - k,
{
    let prev = pick(spartan_matrices(dag, k + 1), w);
    let e = pick(node_entries(dag, k, row_start(dag, k) as int), w);
    assert(pick(spartan_matrices(dag, k), w) =~= prev + e);
    lemma_row_dot_concat(prev, e, r, z);
    if k == i {
        lemma_matrix_rows_below(dag, i + 1, w);
        lemma_row_dot_other_rows(prev, r, z);
    } else {
        lemma_isolate_row(dag, k + 1, i, r, z, w);
        lemma_node_entry_rows(dag, k, w);
        lemma_rows_from_antitone(dag, k + 1, i);
        lemma_row_dot_other_rows(e, r, z);
    }
}

/// Every row of the nodes from `k` on is owned by one of them.
pub proof fn lemma_row_owner(dag: DAG, k: int, r: int) -> (i: int)
    requires
        0 <= k <= dag.nodes.len(),
        0 <= r < rows_from(dag, k),
    ensures
        k <= i < dag.nodes.len(),
        row_start(dag, i) <= r < row_end(dag, i),
    decreases dag.nodes.len() - k,
{
    if r < rows_from(dag, k + 1) {
        lemma_row_owner(dag, k + 1, r)
    } else {
        k
    }
}

/// The node's private values take exactly its private columns.
pub proof fn lemma_node_private_values_len(dag: DAG, inputs: Seq<FieldElement>, i: int)
    ensures
        node_private_values(dag, inputs, i).len() == private_slots(dag, i),
{
}

/// The private values of node `i` sit at its private columns.
pub proof fn lemma_private_values_at(dag: DAG, inputs: Seq<FieldElement>, n: int, i: int, t: int)
    requires
        0 <= i < n,
        0 <= t < private_slots(dag, i),
    ensures
        private_before(dag, i) + t < private_before(dag, n),
        private_values(dag, inputs, n).len() == private_before(dag, n),
        private_values(dag, inputs, n)[private_before(dag, i) + t] == node_private_values(
            dag,
            inputs,
            i,
        )[t],
    decreases n,
{
    super::witness::lemma_private_values_len(dag, inputs, n);
    super::witness::lemma_private_values_len(dag, inputs, n - 1);
    lemma_node_private_values_len(dag, inputs, n - 1);
    if n - 1 > i {
        lemma_private_values_at(dag, inputs, n - 1, i, t);
    }
}

/// The z-vector holds every node's value at the node's column, the constant 1 at
/// its column, and each `Pow5` node's square and fourth power at theirs.
pub proof fn lemma_column_values(
    dag: DAG,
    inputs: Seq<FieldElement>,
    vars: Seq<FieldElement>,
    public_io: Seq<FieldElement>,
    id: int,
)
    requires
        dag.is_well_formed(),
        inputs_fit(dag, inputs),
        is_witness(dag, inputs, vars, public_io),
        0 <= id < dag.nodes.len(),
    ensures
        node_column(dag, id) < assignment(vars, public_io).len(),
        assignment(vars, public_io)[node_column(dag, id) as int] == node_value(dag, inputs, id),
        assignment(vars, public_io)[const_column(dag) as int] == 1,
        dag.nodes[id].op is Pow5 ==> {
            let x = node_value(dag, inputs, dag.nodes[id].op->Pow5_0 as int);
            &&& square_column(dag, id) + 1 < vars.len()
            &&& assignment(vars, public_io)[square_column(dag, id) as int] == square_mod(x)
            &&& assignment(vars, public_io)[(square_column(dag, id) + 1) as int] == fourth_mod(x)
        },
{
    let n = dag.nodes.len() as int;
    let z = assignment(vars, public_io);
    let np = num_private_vars(dag) as int;
    let ev = element_values(vars);
    assert(vars.len() == np);
    assert(z[np] == 1);
    if id < dag.num_outputs {
        assert(z[np + 1 + id] == public_io[id].value());
    } else if dag.nodes[id].op is Input {
        lemma_rank_of_circuit_input(dag, id);
        let k = circuit_inputs_upto(dag, id).len() as int;
        assert(public_io[dag.num_outputs + k] == inputs[k]);
        assert(z[np + 1 + dag.num_outputs + k] == public_io[dag.num_outputs + k].value());
    } else {
        lemma_private_values_at(dag, inputs, n, id, 0);
        assert(ev[private_before(dag, id) as int] == vars[private_before(dag, id) as int].value());
    }
    if dag.nodes[id].op is Pow5 {
        let t0 = if is_public_node(dag, id) { 0int } else { 1int };
        lemma_private_values_at(dag, inputs, n, id, t0);
        lemma_private_values_at(dag, inputs, n, id, t0 + 1);
        assert(ev[square_column(dag, id) as int] == vars[square_column(dag, id) as int].value());
        assert(ev[(square_column(dag, id) + 1) as int] == vars[(square_column(dag, id) + 1) as int].value());
    }
}

/// Term of a single entry in `row_dot`.
pub open spec fn entry_term(e: (int, int, nat), r: int, z: Seq<int>) -> int {
    if e.0 != r {
        0
    } else if e.2 == 1 {
        z[e.1]
    } else {
        e.2 * z[e.1]
    }
}

/// `row_dot` of a sequence of at most three entries, term by term.
pub proof fn lemma_small_dots(s: Seq<(int, int, nat)>, r: int, z: Seq<int>)
    requires
        s.len() <= 3,
    ensures
        s.len() == 0 ==> row_dot(s, r, z) == 0,
        s.len() == 1 ==> row_dot(s, r, z) == entry_term(s[0], r, z),
        s.len() == 2 ==> row_dot(s, r, z) == entry_term(s[0], r, z) + entry_term(s[1], r, z),
        s.len() == 3 ==> row_dot(s, r, z) == entry_term(s[0], r, z) + entry_term(s[1], r, z)
            + entry_term(s[2], r, z),
{
    reveal_with_fuel(row_dot, 4);
    assert forall|k: int| 0 <= k < s.len() && s[k].2 == 1 implies s[k].2 * z[s[k].1] == z[s[k].1] by {
        assert(s[k].2 * z[s[k].1] == z[s[k].1]) by (nonlinear_arith)
            requires
                s[k].2 == 1,
        ;
    }
    if s.len() >= 1 {
        assert(s.take(1).drop_last() =~= Seq::<(int, int, nat)>::empty());
    }
    if s.len() >= 2 {
        assert(s.take(2).drop_last() =~= s.take(1));
    }
    if s.len() == 1 {
        assert(s =~= s.take(1));
    } else if s.len() == 2 {
        assert(s =~= s.take(2));
    } else if s.len() == 3 {
        assert(s.drop_last() =~= s.take(2));
    }
}

/// Node values are reduced modulo ℓ.
pub proof fn lemma_node_value_below_order(dag: DAG, inputs: Seq<FieldElement>, id: int)
    requires
        inputs_fit(dag, inputs),
    ensures
        node_value(dag, inputs, id) < field_order(),
    decreases dag.nodes.len() - id,
{
    if 0 <= id < dag.nodes.len() {
        let n = dag.nodes.len() as int;
        match dag.nodes[id].op {
            OpType::Alias(s) => {
                if id < s < n {
                    lemma_node_value_below_order(dag, inputs, s as int);
                }
            },
            OpType::Input => {
                let k = circuit_inputs_upto(dag, id).len() as int;
                if is_circuit_input(dag, id) && k < inputs.len() {
                    assert(inputs[k].is_canonical());
                }
            },
            _ => {},
        }
    }
}

/// A row `<A,z> * <B,z> = <C,z>` with `A = [1·z[a]]`, `B = [1·z[b]]`, `C = [1·z[c]]`
/// (plus entries of other rows) holds when `z[c] = z[a] * z[b] mod ℓ`.
pub proof fn lemma_product_row(
    e: (Seq<(int, int, nat)>, Seq<(int, int, nat)>, Seq<(int, int, nat)>),
    r: int,
    z: Seq<int>,
    va: int,
    vb: int,
    vc: int,
)
    requires
        e.0.len() <= 3,
        e.1.len() <= 3,
        e.2.len() <= 3,
        row_dot(e.0, r, z) == va,
        row_dot(e.1, r, z) == vb,
        row_dot(e.2, r, z) == vc,
        vc == (va * vb) % (field_order() as int),
    ensures
        row_holds(e.0, e.1, e.2, r, z),
{
    lemma_sub_own_mod(va * vb);
}

/// A row with `<B,z> = 1` holds when `<C,z> = <A,z> mod ℓ`.
pub proof fn lemma_linear_row(
    e: (Seq<(int, int, nat)>, Seq<(int, int, nat)>, Seq<(int, int, nat)>),
    r: int,
    z: Seq<int>,
    va: int,
    vc: int,
)
    requires
        e.0.len() <= 3,
        e.1.len() <= 3,
        e.2.len() <= 3,
        row_dot(e.0, r, z) == va,
        row_dot(e.1, r, z) == 1,
        row_dot(e.2, r, z) == vc,
        vc == va % (field_order() as int),
    ensures
        row_holds(e.0, e.1, e.2, r, z),
{
    assert(va * 1 == va);
    lemma_product_row(e, r, z, va, 1, vc);
}

/// Each row owned by node `i` holds.
pub proof fn lemma_node_rows_hold(
    dag: DAG,
    inputs: Seq<FieldElement>,
    vars: Seq<FieldElement>,
    public_io: Seq<FieldElement>,
    i: int,
    r: int,
)
    requires
        dag.is_well_formed(),
        dag.outputs_are_computed(),
        inputs_fit(dag, inputs),
        is_witness(dag, inputs, vars, public_io),
        0 <= i < dag.nodes.len(),
        row_start(dag, i) <= r < row_end(dag, i),
    ensures
        ({
            let e = node_entries(dag, i, row_start(dag, i) as int);
            row_holds(e.0, e.1, e.2, r, assignment(vars, public_io))
        }),
{
    let z = assignment(vars, public_io);
    let r0 = row_start(dag, i) as int;
    let e = node_entries(dag, i, r0);
    let m = field_order() as int;
    lemma_row_start_step(dag, i);
    lemma_column_values(dag, inputs, vars, public_io, i);
    let out = z[node_column(dag, i) as int];
    lemma_small_dots(e.0, r, z);
    lemma_small_dots(e.1, r, z);
    lemma_small_dots(e.2, r, z);
    match dag.nodes[i].op {
        OpType::Alias(s) => {
            assert(op_operands(dag.nodes[i].op)[0] == s);
            lemma_column_values(dag, inputs, vars, public_io, s as int);
            lemma_node_value_below_order(dag, inputs, i);
            vstd::arithmetic::div_mod::lemma_small_mod(out as nat, field_order());
            lemma_linear_row(e, r, z, out, out);
        },
        OpType::Add(a, b) => {
            assert(op_operands(dag.nodes[i].op)[0] == a);
            assert(op_operands(dag.nodes[i].op)[1] == b);
            lemma_column_values(dag, inputs, vars, public_io, a as int);
            lemma_column_values(dag, inputs, vars, public_io, b as int);
            let x = (node_value(dag, inputs, a as int) + node_value(dag, inputs, b as int)) as int;
            lemma_linear_row(e, r, z, x, out);
        },
        OpType::Mul(a, b) => {
            assert(op_operands(dag.nodes[i].op)[0] == a);
            assert(op_operands(dag.nodes[i].op)[1] == b);
            lemma_column_values(dag, inputs, vars, public_io, a as int);
            lemma_column_values(dag, inputs, vars, public_io, b as int);
            let va = node_value(dag, inputs, a as int) as int;
            let vb = node_value(dag, inputs, b as int) as int;
            lemma_product_row(e, r, z, va, vb, out);
        },
        OpType::Scale(s, k) => {
            assert(op_operands(dag.nodes[i].op)[0] == s);
            lemma_column_values(dag, inputs, vars, public_io, s as int);
            let vs = node_value(dag, inputs, s as int) as int;
            let x = k as int * vs;
            if k == 0 {
                assert(x == 0);
            }
            lemma_linear_row(e, r, z, x, out);
        },
        OpType::Pow5(s) => {
            assert(op_operands(dag.nodes[i].op)[0] == s);
            lemma_column_values(dag, inputs, vars, public_io, s as int);
            let x = node_value(dag, inputs, s as int) as int;
            let sq = square_mod(x as nat) as int;
            let qd = fourth_mod(x as nat) as int;
            if r == r0 {
                lemma_product_row(e, r, z, x, x, sq);
            } else if r == r0 + 1 {
                lemma_product_row(e, r, z, sq, sq, qd);
            } else {
                lemma_product_row(e, r, z, qd, x, out);
            }
        },
        _ => {},
    }
}

} // verus!
