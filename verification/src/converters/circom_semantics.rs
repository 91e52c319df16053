//! What the Circom source computes: every signal it assigns gets the value of its
//! node, so the outputs of the template are the DAG's outputs.
use super::circom::{
    assign_line, circom_input_ids, last_index_of, circom_text, constraint_text, constraints_text, declarations_text,
    outputs_text, signal_line, signal_name,
};
use super::layout::{circuit_input_ids, circuit_inputs_upto, is_circuit_input};
use super::witness::{fifth_mod, fourth_mod, node_value, square_mod};
use crate::dag::graph::{op_operands, DAG};
use crate::dag::node::{Node, OpType};
use crate::field::{field_order, FieldElement};
use crate::text::decimal;
use vstd::arithmetic::div_mod::lemma_small_mod;
use vstd::prelude::*;

verus! {

/// `text` is `pre`, then `line`, then `post`.
pub open spec fn splits_at(text: Seq<char>, pre: Seq<char>, line: Seq<char>, post: Seq<char>) -> bool {
    text == pre + line + post
}

/// The text holds `line` as a piece.
pub open spec fn contains_line(text: Seq<char>, line: Seq<char>) -> bool {
    exists|pre: Seq<char>, post: Seq<char>| #[trigger] splits_at(text, pre, line, post)
}

/// Node `a` of the DAG, whose Circom signal is named `t`, has value `x` on `inputs`.
pub open spec fn node_signal(dag: DAG, inputs: Seq<FieldElement>, a: int, t: Seq<char>, x: nat) -> bool {
    &&& 0 <= a < dag.nodes.len()
    &&& t == signal_name(circom_input_ids(dag), a as usize)
    &&& x == node_value(dag, inputs, a)
}

/// The Circom signal `t` carries the value `x`: it is the signal of a node of value
/// `x`, or one of the `extra` signals (named with their values).
pub open spec fn signal_carries(
    dag: DAG,
    inputs: Seq<FieldElement>,
    extra: Seq<(Seq<char>, nat)>,
    t: Seq<char>,
    x: nat,
) -> bool {
    ||| exists|a: int| #[trigger] node_signal(dag, inputs, a, t, x)
    ||| exists|k: int| 0 <= k < extra.len() && #[trigger] extra[k] == (t, x)
}

/// `rhs` is `a + b` in Circom.
pub open spec fn is_sum(rhs: Seq<char>, a: Seq<char>, b: Seq<char>) -> bool {
    rhs == a + " + "@ + b
}

/// `rhs` is `a * b` in Circom.
pub open spec fn is_product(rhs: Seq<char>, a: Seq<char>, b: Seq<char>) -> bool {
    rhs == a + " * "@ + b
}

/// `rhs` is `a * k` in Circom, for the constant `k`.
pub open spec fn is_scaled(rhs: Seq<char>, a: Seq<char>, k: nat) -> bool {
    rhs == a + " * "@ + decimal(k)
}

/// The right-hand side `rhs` of a Circom assignment evaluates to `v` modulo ℓ when
/// the signals carry their values: a signal, a sum or a product of two signals, or a
/// signal times a constant.
pub open spec fn rhs_evaluates(
    dag: DAG,
    inputs: Seq<FieldElement>,
    extra: Seq<(Seq<char>, nat)>,
    rhs: Seq<char>,
    v: nat,
) -> bool {
    let p = field_order();
    ||| exists|x: nat| #[trigger] signal_carries(dag, inputs, extra, rhs, x) && x % p == v % p
    ||| exists|a: Seq<char>, b: Seq<char>, x: nat, y: nat|
        #![trigger is_sum(rhs, a, b), signal_carries(dag, inputs, extra, a, x), signal_carries(dag, inputs, extra, b, y)]
        is_sum(rhs, a, b) && signal_carries(dag, inputs, extra, a, x) && signal_carries(dag, inputs, extra, b, y)
            && (x + y) % p == v % p
    ||| exists|a: Seq<char>, b: Seq<char>, x: nat, y: nat|
        #![trigger is_product(rhs, a, b), signal_carries(dag, inputs, extra, a, x), signal_carries(dag, inputs, extra, b, y)]
        is_product(rhs, a, b) && signal_carries(dag, inputs, extra, a, x) && signal_carries(dag, inputs, extra, b, y)
            && (x * y) % p == v % p
    ||| exists|a: Seq<char>, x: nat, k: nat|
        #![trigger is_scaled(rhs, a, k), signal_carries(dag, inputs, extra, a, x)]
        is_scaled(rhs, a, k) && signal_carries(dag, inputs, extra, a, x) && (x * k) % p == v % p
}

/// The Circom source assigns node `i`'s signal its value on `inputs`. An operation
/// node's signal is assigned from an expression that evaluates to the node's value;
/// a `Pow5` node first assigns its square and fourth-power signals from expressions
/// that evaluate to the square and fourth power of its source, and its own signal
/// from one that evaluates, with those, to the node's value.
pub open spec fn circom_assigns_value(dag: DAG, inputs: Seq<FieldElement>, i: int) -> bool {
    let text = circom_text(dag);
    let t = signal_name(circom_input_ids(dag), i as usize);
    let no_extra = Seq::<(Seq<char>, nat)>::empty();
    match dag.nodes[i].op {
        OpType::Add(_, _) | OpType::Mul(_, _) | OpType::Alias(_) | OpType::Scale(_, _) => exists|rhs: Seq<char>|
            #[trigger] contains_line(text, assign_line(t, rhs)) && rhs_evaluates(
                dag,
                inputs,
                no_extra,
                rhs,
                node_value(dag, inputs, i),
            ),
        OpType::Pow5(s) => {
            let x = node_value(dag, inputs, s as int);
            let sq = t + "_sq"@;
            let qd = t + "_qd"@;
            let with_sq = seq![(sq, square_mod(x))];
            let with_qd = seq![(sq, square_mod(x)), (qd, fourth_mod(x))];
            exists|r1: Seq<char>, r2: Seq<char>, r3: Seq<char>|
                #![trigger contains_line(text, assign_line(sq, r1)), contains_line(text, assign_line(qd, r2)), contains_line(text, assign_line(t, r3))]
                contains_line(text, assign_line(sq, r1)) && rhs_evaluates(dag, inputs, no_extra, r1, square_mod(x))
                    && contains_line(text, assign_line(qd, r2)) && rhs_evaluates(
                    dag,
                    inputs,
                    with_sq,
                    r2,
                    fourth_mod(x),
                ) && contains_line(text, assign_line(t, r3)) && rhs_evaluates(
                    dag,
                    inputs,
                    with_qd,
                    r3,
                    node_value(dag, inputs, i),
                )
        },
        _ => true,
    }
}

/// The constraint lines from node `k` on hold those of node `i >= k`, after the
/// lines of the nodes past `i`.
proof fn lemma_constraints_split(dag: DAG, k: int, i: int) -> (post: Seq<char>)
    requires
        0 <= k <= i < dag.nodes.len(),
    ensures
        constraints_text(dag, k) == constraints_text(dag, i + 1) + constraint_text(
            circom_input_ids(dag),
            dag.nodes[i],
        ) + post,
    decreases i - k,
{
    if k == i {
        let e = Seq::<char>::empty();
        assert(constraints_text(dag, k) =~= constraints_text(dag, i + 1) + constraint_text(
            circom_input_ids(dag),
            dag.nodes[i],
        ) + e);
        e
    } else {
        let post1 = lemma_constraints_split(dag, k + 1, i);
        let post = post1 + constraint_text(circom_input_ids(dag), dag.nodes[k]);
        assert(constraints_text(dag, k) =~= constraints_text(dag, i + 1) + constraint_text(
            circom_input_ids(dag),
            dag.nodes[i],
        ) + post);
        post
    }
}

/// The output connections before `n` hold that of output `o < n`.
proof fn lemma_outputs_split(dag: DAG, n: int, o: int) -> (post: Seq<char>)
    requires
        0 <= o < n,
    ensures
        outputs_text(dag, n) == outputs_text(dag, o) + assign_line(
            "out["@ + decimal(o as nat) + "]"@,
            signal_name(circom_input_ids(dag), o as usize),
        ) + post,
    decreases n - o,
{
    let line = assign_line("out["@ + decimal(o as nat) + "]"@, signal_name(circom_input_ids(dag), o as usize));
    if n == o + 1 {
        let e = Seq::<char>::empty();
        assert(outputs_text(dag, n) =~= outputs_text(dag, o) + line + e);
        e
    } else {
        let post1 = lemma_outputs_split(dag, n - 1, o);
        let post = post1 + assign_line(
            "out["@ + decimal((n - 1) as nat) + "]"@,
            signal_name(circom_input_ids(dag), (n - 1) as usize),
        );
        assert(outputs_text(dag, n) =~= outputs_text(dag, o) + line + post);
        post
    }
}

/// A line of a piece of the text is a line of the text.
proof fn lemma_contains_within(
    text: Seq<char>,
    pre: Seq<char>,
    piece: Seq<char>,
    post: Seq<char>,
    p1: Seq<char>,
    line: Seq<char>,
    p2: Seq<char>,
)
    requires
        text == pre + piece + post,
        piece == p1 + line + p2,
    ensures
        contains_line(text, line),
{
    assert(splits_at(text, pre + p1, line, p2 + post)) by {
        assert(text =~= (pre + p1) + line + (p2 + post));
    }
}

/// The constraint lines of node `i` are a piece of the Circom source.
#[verifier::spinoff_prover]
#[verifier::rlimit(40)]
proof fn lemma_node_piece(dag: DAG, i: int) -> (res: (Seq<char>, Seq<char>))
    requires
        0 <= i < dag.nodes.len(),
    ensures
        circom_text(dag) == res.0 + constraint_text(circom_input_ids(dag), dag.nodes[i]) + res.1,
{
    let inputs = circom_input_ids(dag);
    let head = "pragma circom 2.0.0;\ntemplate Challenge() {\n"@ + "    signal input in["@ + decimal(inputs.len())
        + "];\n"@ + "    signal output out["@ + decimal(dag.num_outputs as nat) + "];\n"@
        + declarations_text(dag, dag.nodes.len() as int);
    let tail = outputs_text(dag, dag.num_outputs as int) + "}\ncomponent main = Challenge();\n"@;
    let post = lemma_constraints_split(dag, 0, i);
    let pre = head + constraints_text(dag, i + 1);
    let after = post + tail;
    assert(circom_text(dag) =~= pre + constraint_text(inputs, dag.nodes[i]) + after);
    (pre, after)
}

/// The value of a node is below ℓ modulo ℓ unchanged.
proof fn lemma_reduced(v: nat)
    ensures
        (v % field_order()) % field_order() == v % field_order(),
{
    lemma_small_mod(v % field_order(), field_order());
}

/// Evaluating the Circom source of a DAG on any inputs gives every operation node's
/// signal the node's value: the source computes what the DAG computes.
#[verifier::spinoff_prover]
#[verifier::rlimit(40)]
pub proof fn lemma_circom_computes_node_values(dag: DAG, inputs: Seq<FieldElement>, i: int)
    requires
        dag.is_well_formed(),
        0 <= i < dag.nodes.len(),
    ensures
        circom_assigns_value(dag, inputs, i),
{
    let ids = circom_input_ids(dag);
    let text = circom_text(dag);
    let t = signal_name(ids, i as usize);
    let no_extra = Seq::<(Seq<char>, nat)>::empty();
    let p = field_order();
    let (pre, post) = lemma_node_piece(dag, i);
    let piece = constraint_text(ids, dag.nodes[i]);
    let e = Seq::<char>::empty();
    let v = node_value(dag, inputs, i);
    lemma_reduced(v);
    match dag.nodes[i].op {
        OpType::Add(l, r) => {
            assert(op_operands(dag.nodes[i].op)[0] == l && op_operands(dag.nodes[i].op)[1] == r);
            assert(op_in_range(dag, i, l as int) && op_in_range(dag, i, r as int));
            let rhs = signal_name(ids, l) + " + "@ + signal_name(ids, r);
            assert(piece =~= e + assign_line(t, rhs) + e);
            lemma_contains_within(text, pre, piece, post, e, assign_line(t, rhs), e);
            let x = node_value(dag, inputs, l as int);
            let y = node_value(dag, inputs, r as int);
            assert(node_signal(dag, inputs, l as int, signal_name(ids, l), x));
            assert(node_signal(dag, inputs, r as int, signal_name(ids, r), y));
            assert(is_sum(rhs, signal_name(ids, l), signal_name(ids, r)));
            assert(v == (x + y) % p);
            lemma_reduced((x + y) as nat);
            assert(signal_carries(dag, inputs, no_extra, signal_name(ids, l), x));
            assert(signal_carries(dag, inputs, no_extra, signal_name(ids, r), y));
            assert(rhs_evaluates(dag, inputs, no_extra, rhs, v));
            assert(contains_line(text, assign_line(t, rhs)));
        },
        OpType::Mul(l, r) => {
            assert(op_operands(dag.nodes[i].op)[0] == l && op_operands(dag.nodes[i].op)[1] == r);
            assert(op_in_range(dag, i, l as int) && op_in_range(dag, i, r as int));
            let rhs = signal_name(ids, l) + " * "@ + signal_name(ids, r);
            assert(piece =~= e + assign_line(t, rhs) + e);
            lemma_contains_within(text, pre, piece, post, e, assign_line(t, rhs), e);
            let x = node_value(dag, inputs, l as int);
            let y = node_value(dag, inputs, r as int);
            assert(node_signal(dag, inputs, l as int, signal_name(ids, l), x));
            assert(node_signal(dag, inputs, r as int, signal_name(ids, r), y));
            assert(is_product(rhs, signal_name(ids, l), signal_name(ids, r)));
            assert(v == (x * y) % p);
            lemma_reduced((x * y) as nat);
            assert(signal_carries(dag, inputs, no_extra, signal_name(ids, l), x));
            assert(signal_carries(dag, inputs, no_extra, signal_name(ids, r), y));
            assert(rhs_evaluates(dag, inputs, no_extra, rhs, v));
            assert(contains_line(text, assign_line(t, rhs)));
        },
        OpType::Alias(s) => {
            assert(op_operands(dag.nodes[i].op)[0] == s);
            assert(op_in_range(dag, i, s as int));
            let rhs = signal_name(ids, s);
            assert(piece =~= e + assign_line(t, rhs) + e);
            lemma_contains_within(text, pre, piece, post, e, assign_line(t, rhs), e);
            let x = node_value(dag, inputs, s as int);
            assert(node_signal(dag, inputs, s as int, rhs, x));
            assert(signal_carries(dag, inputs, no_extra, rhs, x));
            assert(rhs_evaluates(dag, inputs, no_extra, rhs, v));
            assert(contains_line(text, assign_line(t, rhs)));
        },
        OpType::Scale(s, k) => {
            assert(op_operands(dag.nodes[i].op)[0] == s);
            assert(op_in_range(dag, i, s as int));
            let rhs = signal_name(ids, s) + " * "@ + decimal(k as nat);
            assert(piece =~= e + assign_line(t, rhs) + e);
            lemma_contains_within(text, pre, piece, post, e, assign_line(t, rhs), e);
            let x = node_value(dag, inputs, s as int);
            assert(node_signal(dag, inputs, s as int, signal_name(ids, s), x));
            assert(signal_carries(dag, inputs, no_extra, signal_name(ids, s), x));
            assert(is_scaled(rhs, signal_name(ids, s), k as nat));
            assert(x * (k as nat) == (k as nat) * x) by (nonlinear_arith);
            assert(v == ((k as nat) * x) % p);
            lemma_reduced((x * (k as nat)) as nat);
            assert(rhs_evaluates(dag, inputs, no_extra, rhs, v));
            assert(contains_line(text, assign_line(t, rhs)));
        },
        OpType::Pow5(s) => {
            assert(op_operands(dag.nodes[i].op)[0] == s);
            assert(op_in_range(dag, i, s as int));
            let src = signal_name(ids, s);
            let x = node_value(dag, inputs, s as int);
            let sq = t + "_sq"@;
            let qd = t + "_qd"@;
            let with_sq = seq![(sq, square_mod(x))];
            let with_qd = seq![(sq, square_mod(x)), (qd, fourth_mod(x))];
            let r1 = src + " * "@ + src;
            let r2 = sq + " * "@ + sq;
            let r3 = qd + " * "@ + src;
            let l1 = signal_line(sq);
            let l2 = assign_line(sq, r1);
            let l3 = signal_line(qd);
            let l4 = assign_line(qd, r2);
            let l5 = assign_line(t, r3);
            assert(piece =~= l1 + l2 + l3 + l4 + l5);
            assert(piece =~= l1 + l2 + (l3 + l4 + l5));
            lemma_contains_within(text, pre, piece, post, l1, l2, l3 + l4 + l5);
            assert(piece =~= (l1 + l2 + l3) + l4 + l5);
            lemma_contains_within(text, pre, piece, post, l1 + l2 + l3, l4, l5);
            assert(piece =~= (l1 + l2 + l3 + l4) + l5 + e);
            lemma_contains_within(text, pre, piece, post, l1 + l2 + l3 + l4, l5, e);
            lemma_reduced((x * x) as nat);
            lemma_reduced((square_mod(x) * square_mod(x)) as nat);
            assert(node_signal(dag, inputs, s as int, src, x));
            assert(signal_carries(dag, inputs, no_extra, src, x));
            assert(is_product(r1, src, src));
            assert(rhs_evaluates(dag, inputs, no_extra, r1, square_mod(x)));
            assert(with_sq[0] == (sq, square_mod(x)));
            assert(signal_carries(dag, inputs, with_sq, sq, square_mod(x)));
            assert(is_product(r2, sq, sq));
            assert(rhs_evaluates(dag, inputs, with_sq, r2, fourth_mod(x)));
            assert(with_qd[1] == (qd, fourth_mod(x)));
            assert(signal_carries(dag, inputs, with_qd, qd, fourth_mod(x)));
            assert(node_signal(dag, inputs, s as int, src, x));
            assert(signal_carries(dag, inputs, with_qd, src, x));
            assert(is_product(r3, qd, src));
            assert(v == fifth_mod(x));
            lemma_reduced((fourth_mod(x) * x) as nat);
            assert(rhs_evaluates(dag, inputs, with_qd, r3, v));
            assert(contains_line(text, assign_line(sq, r1)));
            assert(contains_line(text, assign_line(qd, r2)));
            assert(contains_line(text, assign_line(t, r3)));
        },
        _ => {},
    }
}

/// Operand `j` of node `i` lies after it in a well-formed DAG.
pub open spec fn op_in_range(dag: DAG, i: int, j: int) -> bool {
    i < j < dag.nodes.len()
}

/// Evaluating the Circom source of a DAG on any inputs gives each output `out[o]`
/// the value of output node `o`.
#[verifier::spinoff_prover]
#[verifier::rlimit(40)]
pub proof fn lemma_circom_outputs_values(dag: DAG, inputs: Seq<FieldElement>, o: int)
    requires
        dag.is_well_formed(),
        0 <= o < dag.num_outputs,
    ensures
        exists|rhs: Seq<char>|
            #[trigger] contains_line(circom_text(dag), assign_line("out["@ + decimal(o as nat) + "]"@, rhs))
                && rhs_evaluates(dag, inputs, Seq::empty(), rhs, node_value(dag, inputs, o)),
{
    let ids = circom_input_ids(dag);
    let head = "pragma circom 2.0.0;\ntemplate Challenge() {\n"@ + "    signal input in["@ + decimal(ids.len())
        + "];\n"@ + "    signal output out["@ + decimal(dag.num_outputs as nat) + "];\n"@
        + declarations_text(dag, dag.nodes.len() as int) + constraints_text(dag, 0);
    let foot = "}\ncomponent main = Challenge();\n"@;
    let post = lemma_outputs_split(dag, dag.num_outputs as int, o);
    let rhs = signal_name(ids, o as usize);
    let line = assign_line("out["@ + decimal(o as nat) + "]"@, rhs);
    let e = Seq::<char>::empty();
    assert(circom_text(dag) =~= (head + outputs_text(dag, o)) + line + (post + foot));
    lemma_contains_within(circom_text(dag), head + outputs_text(dag, o), line, post + foot, e, line, e);
    let x = node_value(dag, inputs, o);
    assert(node_signal(dag, inputs, o, rhs, x));
    assert(signal_carries(dag, inputs, Seq::empty(), rhs, x));
    assert(rhs_evaluates(dag, inputs, Seq::empty(), rhs, x));
    assert(contains_line(circom_text(dag), line));
}

/// With the outputs computed, the input nodes before `n` are the circuit inputs
/// before `n`, in order.
proof fn lemma_input_ids_prefix(dag: DAG, n: int)
    requires
        dag.ids_match_positions(),
        dag.outputs_are_computed(),
        dag.num_outputs <= dag.nodes.len(),
        0 <= n <= dag.nodes.len(),
    ensures
        dag.nodes@.take(n).filter(|nd: Node| nd.op is Input).map_values(|nd: Node| nd.id) == circuit_inputs_upto(
            dag,
            n,
        ),
    decreases n,
{
    reveal_with_fuel(Seq::filter, 1);
    if n > 0 {
        lemma_input_ids_prefix(dag, n - 1);
        assert(dag.nodes@.take(n).drop_last() =~= dag.nodes@.take(n - 1));
        let f = dag.nodes@.take(n - 1).filter(|nd: Node| nd.op is Input);
        if dag.nodes[n - 1].op is Input {
            assert(n - 1 >= dag.num_outputs);
            assert(dag.nodes@.take(n).filter(|nd: Node| nd.op is Input) == f.push(dag.nodes[n - 1]));
            assert(f.push(dag.nodes[n - 1]).map_values(|nd: Node| nd.id) =~= f.map_values(|nd: Node| nd.id).push(
                dag.nodes[n - 1].id,
            ));
        }
    } else {
        assert(dag.nodes@.take(0) =~= Seq::<Node>::empty());
        assert(dag.nodes@.take(0).filter(|nd: Node| nd.op is Input) =~= Seq::<Node>::empty());
    }
}

/// A circuit input's last place among the circuit inputs before `n > a` is its rank.
proof fn lemma_input_rank(dag: DAG, a: int, n: int)
    requires
        0 <= a < n <= usize::MAX,
        is_circuit_input(dag, a),
    ensures
        last_index_of(circuit_inputs_upto(dag, n), a as usize) == Some(circuit_inputs_upto(dag, a).len()),
        circuit_inputs_upto(dag, a).len() < circuit_inputs_upto(dag, n).len(),
    decreases n - a,
{
    if n > a + 1 {
        lemma_input_rank(dag, a, n - 1);
        assert((n - 1) as usize != a as usize);
        if is_circuit_input(dag, n - 1) {
            assert(circuit_inputs_upto(dag, n).drop_last() == circuit_inputs_upto(dag, n - 1));
        }
    } else {
        assert(circuit_inputs_upto(dag, n).last() == a as usize);
    }
}

/// In the Circom source the circuit inputs are the signals `in[k]`, in order: an
/// input node's signal is `in[k]`, `k` its rank among the circuit inputs, and it
/// carries the `k`-th input value; the source declares as many inputs as the DAG
/// has circuit inputs.
pub proof fn lemma_circom_input_signals(dag: DAG, inputs: Seq<FieldElement>, a: int)
    requires
        dag.is_well_formed(),
        dag.outputs_are_computed(),
        0 <= a < dag.nodes.len(),
        dag.nodes[a].op is Input,
        inputs.len() == circuit_input_ids(dag).len(),
    ensures
        circom_input_ids(dag) == circuit_input_ids(dag),
        signal_name(circom_input_ids(dag), a as usize) == "in["@ + decimal(circuit_inputs_upto(dag, a).len())
            + "]"@,
        node_value(dag, inputs, a) == inputs[circuit_inputs_upto(dag, a).len() as int].value(),
{
    let n = dag.nodes.len() as int;
    lemma_input_ids_prefix(dag, n);
    assert(dag.nodes@.take(n) =~= dag.nodes@);
    assert(a >= dag.num_outputs);
    lemma_input_rank(dag, a, n);
}

/// `last_index_of` finds a place that holds the id.
proof fn lemma_last_index_holds(ids: Seq<usize>, id: usize)
    ensures
        last_index_of(ids, id) matches Some(k) ==> k < ids.len() && ids[k as int] == id,
    decreases ids.len(),
{
    if ids.len() > 0 && ids.last() != id {
        lemma_last_index_holds(ids.drop_last(), id);
    }
}

/// The declarations of the nodes before `n > i` hold that of node `i`.
proof fn lemma_declarations_split(dag: DAG, n: int, i: int) -> (post: Seq<char>)
    requires
        0 <= i < n,
    ensures
        declarations_text(dag, n) == declarations_text(dag, i) + (if last_index_of(
            circom_input_ids(dag),
            dag.nodes[i].id,
        ) is Some {
            Seq::<char>::empty()
        } else {
            signal_line("s_"@ + decimal(dag.nodes[i].id as nat))
        }) + post,
    decreases n - i,
{
    let line = if last_index_of(circom_input_ids(dag), dag.nodes[i].id) is Some {
        Seq::<char>::empty()
    } else {
        signal_line("s_"@ + decimal(dag.nodes[i].id as nat))
    };
    if n == i + 1 {
        let e = Seq::<char>::empty();
        assert(declarations_text(dag, n) =~= declarations_text(dag, i) + line + e);
        e
    } else {
        let post1 = lemma_declarations_split(dag, n - 1, i);
        let id = dag.nodes[n - 1].id;
        let last = if last_index_of(circom_input_ids(dag), id) is Some {
            Seq::<char>::empty()
        } else {
            signal_line("s_"@ + decimal(id as nat))
        };
        let post = post1 + last;
        assert(declarations_text(dag, n) =~= declarations_text(dag, i) + line + post);
        post
    }
}

/// The Circom source declares the signal `s_<i>` of every node that is not an input.
#[verifier::spinoff_prover]
#[verifier::rlimit(40)]
pub proof fn lemma_circom_declares_signals(dag: DAG, i: int)
    requires
        dag.is_well_formed(),
        dag.outputs_are_computed(),
        0 <= i < dag.nodes.len(),
        !(dag.nodes[i].op is Input),
    ensures
        contains_line(circom_text(dag), signal_line("s_"@ + decimal(i as nat))),
{
    let n = dag.nodes.len() as int;
    let ids = circom_input_ids(dag);
    lemma_input_ids_prefix(dag, n);
    assert(dag.nodes@.take(n) =~= dag.nodes@);
    lemma_last_index_holds(ids, i as usize);
    super::layout::lemma_circuit_inputs_upto_entries(dag, n);
    if last_index_of(ids, i as usize) is Some {
        let k = last_index_of(ids, i as usize)->Some_0;
        assert(is_circuit_input(dag, circuit_inputs_upto(dag, n)[k as int] as int));
    }
    let post = lemma_declarations_split(dag, n, i);
    let line = signal_line("s_"@ + decimal(i as nat));
    let head = "pragma circom 2.0.0;\ntemplate Challenge() {\n"@ + "    signal input in["@ + decimal(ids.len())
        + "];\n"@ + "    signal output out["@ + decimal(dag.num_outputs as nat) + "];\n"@;
    let tail = constraints_text(dag, 0) + outputs_text(dag, dag.num_outputs as int)
        + "}\ncomponent main = Challenge();\n"@;
    let e = Seq::<char>::empty();
    assert(circom_text(dag) =~= (head + declarations_text(dag, i)) + line + (post + tail));
    lemma_contains_within(circom_text(dag), head + declarations_text(dag, i), line, post + tail, e, line, e);
}

} // verus!
