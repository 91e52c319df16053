//! Conversion of a DAG to Circom 2.0.0 source text.
use crate::dag::graph::DAG;
use crate::dag::node::{Node, OpType};
use crate::text::{decimal, push_decimal, push_decimal_u64};
use std::collections::HashMap;
use vstd::prelude::*;

verus! {

broadcast use vstd::std_specs::hash::group_hash_axioms;

/// Ids of the input nodes, in node order.
pub open spec fn circom_input_ids(dag: DAG) -> Seq<usize> {
    dag.nodes@.filter(|n: Node| n.op is Input).map_values(|n: Node| n.id)
}

/// Position of the last occurrence of `id` in `s`, if any.
pub open spec fn last_index_of(s: Seq<usize>, id: usize) -> Option<nat>
    decreases s.len(),
{
    if s.len() == 0 {
        None
    } else if s.last() == id {
        Some((s.len() - 1) as nat)
    } else {
        last_index_of(s.drop_last(), id)
    }
}

/// Signal name of node `id`: `in[k]` for the k-th input, `s_<id>` otherwise.
pub open spec fn signal_name(inputs: Seq<usize>, id: usize) -> Seq<char> {
    match last_index_of(inputs, id) {
        Some(k) => "in["@ + decimal(k) + "]"@,
        None => "s_"@ + decimal(id as nat),
    }
}

/// `    <target> <== <a> <op> <b>;` followed by a newline.
pub open spec fn assign_line(target: Seq<char>, rhs: Seq<char>) -> Seq<char> {
    "    "@ + target + " <== "@ + rhs + ";\n"@
}

/// `    signal <name>;` followed by a newline.
pub open spec fn signal_line(name: Seq<char>) -> Seq<char> {
    "    signal "@ + name + ";\n"@
}

/// The constraint lines of one node.
pub open spec fn constraint_text(inputs: Seq<usize>, node: Node) -> Seq<char> {
    let t = signal_name(inputs, node.id);
    match node.op {
        OpType::Add(l, r) => assign_line(
            t,
            signal_name(inputs, l) + " + "@ + signal_name(inputs, r),
        ),
        OpType::Mul(l, r) => assign_line(
            t,
            signal_name(inputs, l) + " * "@ + signal_name(inputs, r),
        ),
        OpType::Alias(s) => assign_line(t, signal_name(inputs, s)),
        OpType::Scale(s, k) => assign_line(t, signal_name(inputs, s) + " * "@ + decimal(k as nat)),
        OpType::Pow5(s) => {
            let src = signal_name(inputs, s);
            let sq = t + "_sq"@;
            let qd = t + "_qd"@;
            signal_line(sq) + assign_line(sq, src + " * "@ + src) + signal_line(qd) + assign_line(
                qd,
                sq + " * "@ + sq,
            ) + assign_line(t, qd + " * "@ + src)
        },
        _ => seq![],
    }
}

/// Declarations of the non-input signals of the nodes before `n`.
pub open spec fn declarations_text(dag: DAG, n: int) -> Seq<char>
    decreases n,
{
    if n <= 0 {
        seq![]
    } else {
        let id = dag.nodes[n - 1].id;
        declarations_text(dag, n - 1) + if last_index_of(circom_input_ids(dag), id) is Some {
            seq![]
        } else {
            signal_line("s_"@ + decimal(id as nat))
        }
    }
}

/// Constraint lines of the nodes from the last one down to node `k`.
pub open spec fn constraints_text(dag: DAG, k: int) -> Seq<char>
    decreases dag.nodes.len() - k,
{
    if k < 0 || k >= dag.nodes.len() {
        seq![]
    } else {
        constraints_text(dag, k + 1) + constraint_text(circom_input_ids(dag), dag.nodes[k])
    }
}

/// Output connections `out[i] <== <signal of node i>;` for `i < n`.
pub open spec fn outputs_text(dag: DAG, n: int) -> Seq<char>
    decreases n,
{
    if n <= 0 {
        seq![]
    } else {
        outputs_text(dag, n - 1) + assign_line(
            "out["@ + decimal((n - 1) as nat) + "]"@,
            signal_name(circom_input_ids(dag), (n - 1) as usize),
        )
    }
}

/// The Circom source of a DAG.
pub open spec fn circom_text(dag: DAG) -> Seq<char> {
    let inputs = circom_input_ids(dag);
    "pragma circom 2.0.0;\ntemplate Challenge() {\n"@ + "    signal input in["@ + decimal(
        inputs.len(),
    ) + "];\n"@ + "    signal output out["@ + decimal(dag.num_outputs as nat) + "];\n"@
        + declarations_text(dag, dag.nodes.len() as int) + constraints_text(dag, 0)
        + outputs_text(dag, dag.num_outputs as int) + "}\ncomponent main = Challenge();\n"@
}

/// The map from input ids to their positions holds, for every id, its last position.
pub open spec fn maps_last_positions(map: Map<usize, usize>, inputs: Seq<usize>) -> bool {
    forall|id: usize|
        (map.contains_key(id) <==> last_index_of(inputs, id) is Some) && (map.contains_key(id)
            ==> last_index_of(inputs, id) == Some(map[id] as nat))
}

/// Returns the signal name of a node id: `in[k]` when `map` sends the id to `k`, and
/// `s_<id>` otherwise.
pub fn get_signal_name(id: usize, map: &HashMap<usize, usize>) -> (name: String)
    ensures
        name@ == if map@.contains_key(id) {
            "in["@ + decimal(map@[id] as nat) + "]"@
        } else {
            "s_"@ + decimal(id as nat)
        },
{
    let mut s = String::new();
    match map.get(&id) {
        Some(idx) => {
            s.append("in[");
            push_decimal(&mut s, *idx);
            s.append("]");
        },
        None => {
            s.append("s_");
            push_decimal(&mut s, id);
        },
    }
    s
}

/// Appends the lines of `text` in `code` as `assign_line` lays them out.
fn push_assign(code: &mut String, target: &str, rhs: &str)
    ensures
        final(code)@ == old(code)@ + assign_line(target@, rhs@),
{
    let ghost c0 = code@;
    code.append("    ");
    code.append(target);
    code.append(" <== ");
    code.append(rhs);
    code.append(";\n");
    assert(code@ =~= c0 + assign_line(target@, rhs@));
}

/// Appends `signal_line(name)`.
fn push_signal(code: &mut String, name: &str)
    ensures
        final(code)@ == old(code)@ + signal_line(name@),
{
    let ghost c0 = code@;
    code.append("    signal ");
    code.append(name);
    code.append(";\n");
    assert(code@ =~= c0 + signal_line(name@));
}

/// Concatenation of three texts.
fn join3(a: &str, b: &str, c: &str) -> (s: String)
    ensures
        s@ == a@ + b@ + c@,
{
    let mut s = String::new();
    s.append(a);
    s.append(b);
    s.append(c);
    assert(s@ =~= a@ + b@ + c@);
    s
}

/// Appends the constraint lines of `node`.
fn push_constraint(code: &mut String, node: Node, map: &HashMap<usize, usize>, inputs: Ghost<Seq<usize>>)
    requires
        maps_last_positions(map@, inputs@),
    ensures
        final(code)@ == old(code)@ + constraint_text(inputs@, node),
{
    let ghost c0 = code@;
    let target = get_signal_name(node.id, map);
    match node.op {
        OpType::Add(l, r) => {
            let left = get_signal_name(l, map);
            let right = get_signal_name(r, map);
            let rhs = join3(left.as_str(), " + ", right.as_str());
            push_assign(code, target.as_str(), rhs.as_str());
        },
        OpType::Mul(l, r) => {
            let left = get_signal_name(l, map);
            let right = get_signal_name(r, map);
            let rhs = join3(left.as_str(), " * ", right.as_str());
            push_assign(code, target.as_str(), rhs.as_str());
        },
        OpType::Alias(src) => {
            let source = get_signal_name(src, map);
            push_assign(code, target.as_str(), source.as_str());
        },
        OpType::Scale(src, k) => {
            let source = get_signal_name(src, map);
            let mut rhs = String::new();
            rhs.append(source.as_str());
            rhs.append(" * ");
            push_decimal_u64(&mut rhs, k);
            push_assign(code, target.as_str(), rhs.as_str());
        },
        OpType::Pow5(s) => {
            // x^5 as three constraints: sq = x * x, qd = sq * sq, out = qd * x
            let source = get_signal_name(s, map);
            let sq = join3(target.as_str(), "_sq", "");
            let qd = join3(target.as_str(), "_qd", "");
            proof {
                reveal_strlit("");
                assert(sq@ =~= target@ + "_sq"@);
                assert(qd@ =~= target@ + "_qd"@);
            }
            push_signal(code, sq.as_str());
            let rhs1 = join3(source.as_str(), " * ", source.as_str());
            push_assign(code, sq.as_str(), rhs1.as_str());
            push_signal(code, qd.as_str());
            let rhs2 = join3(sq.as_str(), " * ", sq.as_str());
            push_assign(code, qd.as_str(), rhs2.as_str());
            let rhs3 = join3(qd.as_str(), " * ", source.as_str());
            push_assign(code, target.as_str(), rhs3.as_str());
        },
        _ => {},
    }
    proof {
        assert(code@ =~= c0 + constraint_text(inputs@, node));
    }
}

/// Converts a DAG to Circom circuit code.
///
/// The result is a Circom 2.0.0 template `Challenge` whose inputs are the DAG's input
/// nodes, whose outputs are nodes `0..num_outputs`, with one constraint per DAG
/// constraint, emitted in reverse node order.
pub fn dag_to_circom(dag: &DAG) -> (code: String)
    ensures
        code@ == circom_text(*dag),
{
    let ghost g = *dag;
    let mut code = String::new();
    code.append("pragma circom 2.0.0;\ntemplate Challenge() {\n");

    // Input node ids.
    let mut inputs: Vec<usize> = Vec::new();
    let mut i: usize = 0;
    while i < dag.nodes.len()
        invariant
            i <= dag.nodes.len(),
            inputs@ == dag.nodes@.take(i as int).filter(|n: Node| n.op is Input).map_values(
                |n: Node| n.id,
            ),
        decreases dag.nodes.len() - i,
    {
        proof {
            reveal_with_fuel(Seq::filter, 1);
            assert(dag.nodes@.take(i + 1).drop_last() =~= dag.nodes@.take(i as int));
        }
        if dag.nodes[i].is_input() {
            inputs.push(dag.nodes[i].id);
            proof {
                let f = dag.nodes@.take(i as int).filter(|n: Node| n.op is Input);
                assert(f.push(dag.nodes@[i as int]).map_values(|n: Node| n.id) =~= f.map_values(
                    |n: Node| n.id,
                ).push(dag.nodes@[i as int].id));
            }
        }
        i = i + 1;
    }
    proof {
        assert(dag.nodes@.take(i as int) =~= dag.nodes@);
    }
    let ghost ins = inputs@;

    code.append("    signal input in[");
    push_decimal(&mut code, inputs.len());
    code.append("];\n");
    code.append("    signal output out[");
    push_decimal(&mut code, dag.num_outputs);
    code.append("];\n");
    let ghost header = code@;

    // Input id -> position.
    let mut signal_map: HashMap<usize, usize> = HashMap::new();
    let mut k: usize = 0;
    while k < inputs.len()
        invariant
            k <= inputs.len(),
            maps_last_positions(signal_map@, inputs@.take(k as int)),
        decreases inputs.len() - k,
    {
        let ghost old_map = signal_map@;
        signal_map.insert(inputs[k], k);
        proof {
            let p = inputs@.take(k + 1);
            assert(p.drop_last() =~= inputs@.take(k as int));
            assert(p.last() == inputs@[k as int]);
            assert forall|id: usize|
                (signal_map@.contains_key(id) <==> last_index_of(p, id) is Some) && (
                signal_map@.contains_key(id) ==> last_index_of(p, id) == Some(
                    signal_map@[id] as nat,
                )) by {
                if id == inputs@[k as int] {
                } else {
                    assert(last_index_of(p, id) == last_index_of(inputs@.take(k as int), id));
                    assert(signal_map@.contains_key(id) == old_map.contains_key(id));
                }
            }
        }
        k = k + 1;
    }
    proof {
        assert(inputs@.take(k as int) =~= inputs@);
    }

    // Intermediate signals.
    let mut i: usize = 0;
    while i < dag.nodes.len()
        invariant
            g == *dag,
            ins == circom_input_ids(g),
            i <= dag.nodes.len(),
            maps_last_positions(signal_map@, ins),
            code@ == header + declarations_text(g, i as int),
        decreases dag.nodes.len() - i,
    {
        let id = dag.nodes[i].id;
        if !signal_map.contains_key(&id) {
            let ghost c0 = code@;
            code.append("    signal s_");
            push_decimal(&mut code, id);
            code.append(";\n");
            proof {
                reveal_strlit("    signal s_");
                reveal_strlit("    signal ");
                reveal_strlit("s_");
                assert(code@ =~= c0 + signal_line("s_"@ + decimal(id as nat)));
            }
        }
        i = i + 1;
    }
    let ghost decls = code@;

    // Constraints, in reverse node order.
    let mut i: usize = dag.nodes.len();
    while i > 0
        invariant
            g == *dag,
            ins == circom_input_ids(g),
            i <= dag.nodes.len(),
            maps_last_positions(signal_map@, ins),
            code@ == decls + constraints_text(g, i as int),
        decreases i,
    {
        i = i - 1;
        push_constraint(&mut code, dag.nodes[i], &signal_map, Ghost(ins));
    }
    let ghost cons = code@;

    // Outputs.
    let mut o: usize = 0;
    while o < dag.num_outputs
        invariant
            g == *dag,
            ins == circom_input_ids(g),
            o <= dag.num_outputs,
            maps_last_positions(signal_map@, ins),
            code@ == cons + outputs_text(g, o as int),
        decreases dag.num_outputs - o,
    {
        let output_signal = get_signal_name(o, &signal_map);
        let mut target = String::new();
        target.append("out[");
        push_decimal(&mut target, o);
        target.append("]");
        push_assign(&mut code, target.as_str(), output_signal.as_str());
        o = o + 1;
    }

    code.append("}\ncomponent main = Challenge();\n");
    proof {
        assert(code@ =~= circom_text(g));
    }
    code
}

} // verus!
