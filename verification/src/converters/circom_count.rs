//! The Circom source has one constraint operator `<==` per R1CS constraint of the
//! DAG and one per output connection.
use super::circom::{
    assign_line, circom_input_ids, circom_text, constraint_text, constraints_text, declarations_text,
    last_index_of, outputs_text, signal_line, signal_name,
};
use crate::dag::graph::{nodes_constraint_total, DAG};
use crate::dag::node::{op_constraint_count, Node, OpType};
use crate::text::{decimal, digit_char};
use vstd::prelude::*;

verus! {

/// Number of occurrences of `ch` in `s`.
pub open spec fn char_count(s: Seq<char>, ch: char) -> nat
    decreases s.len(),
{
    if s.len() == 0 {
        0
    } else {
        char_count(s.drop_last(), ch) + if s.last() == ch {
            1nat
        } else {
            0nat
        }
    }
}

/// Counts add up over a concatenation.
pub proof fn lemma_char_count_concat(a: Seq<char>, b: Seq<char>, ch: char)
    ensures
        char_count(a + b, ch) == char_count(a, ch) + char_count(b, ch),
    decreases b.len(),
{
    if b.len() == 0 {
        assert(a + b =~= a);
    } else {
        lemma_char_count_concat(a, b.drop_last(), ch);
        assert((a + b).drop_last() =~= a + b.drop_last());
    }
}

/// A decimal numeral holds no `<`.
proof fn lemma_decimal_no_arrow(n: nat)
    ensures
        char_count(decimal(n), '<') == 0,
    decreases n,
{
    reveal_with_fuel(char_count, 2);
    if n >= 10 {
        lemma_decimal_no_arrow(n / 10);
        lemma_char_count_concat(decimal(n / 10), seq![digit_char(n % 10)], '<');
    }
}

/// A signal name holds no `<`.
proof fn lemma_name_no_arrow(inputs: Seq<usize>, id: usize)
    ensures
        char_count(signal_name(inputs, id), '<') == 0,
{
    reveal_strlit("in[");
    reveal_strlit("]");
    reveal_strlit("s_");
    reveal_with_fuel(char_count, 4);
    match last_index_of(inputs, id) {
        Some(k) => {
            lemma_decimal_no_arrow(k);
            lemma_char_count_concat("in["@, decimal(k), '<');
            lemma_char_count_concat("in["@ + decimal(k), "]"@, '<');
        },
        None => {
            lemma_decimal_no_arrow(id as nat);
            lemma_char_count_concat("s_"@, decimal(id as nat), '<');
        },
    }
}

/// An assignment line holds the one `<` of its operator, besides those of its sides.
proof fn lemma_assign_line_count(target: Seq<char>, rhs: Seq<char>)
    ensures
        char_count(assign_line(target, rhs), '<') == char_count(target, '<') + char_count(rhs, '<') + 1,
{
    reveal_strlit("    ");
    reveal_strlit(" <== ");
    reveal_strlit(";\n");
    reveal_with_fuel(char_count, 6);
    lemma_char_count_concat("    "@, target, '<');
    lemma_char_count_concat("    "@ + target, " <== "@, '<');
    lemma_char_count_concat("    "@ + target + " <== "@, rhs, '<');
    lemma_char_count_concat("    "@ + target + " <== "@ + rhs, ";\n"@, '<');
}

/// A signal declaration of a name without `<` holds none.
proof fn lemma_signal_line_count(name: Seq<char>)
    requires
        char_count(name, '<') == 0,
    ensures
        char_count(signal_line(name), '<') == 0,
{
    reveal_strlit("    signal ");
    reveal_strlit(";\n");
    reveal_with_fuel(char_count, 12);
    lemma_char_count_concat("    signal "@, name, '<');
    lemma_char_count_concat("    signal "@ + name, ";\n"@, '<');
}

/// Two names joined by an infix operator (` + ` or ` * `) hold no `<`.
proof fn lemma_infix_count(l: Seq<char>, op: Seq<char>, r: Seq<char>)
    requires
        char_count(l, '<') == 0,
        char_count(op, '<') == 0,
        char_count(r, '<') == 0,
    ensures
        char_count(l + op + r, '<') == 0,
{
    lemma_char_count_concat(l, op, '<');
    lemma_char_count_concat(l + op, r, '<');
}

/// The constraint lines of a node hold one `<` per constraint of the node.
proof fn lemma_constraint_text_count(inputs: Seq<usize>, node: Node)
    ensures
        char_count(constraint_text(inputs, node), '<') == op_constraint_count(node.op),
{
    reveal_strlit(" + ");
    reveal_strlit(" * ");
    reveal_strlit("_sq");
    reveal_strlit("_qd");
    reveal_with_fuel(char_count, 4);
    let t = signal_name(inputs, node.id);
    lemma_name_no_arrow(inputs, node.id);
    match node.op {
        OpType::Add(l, r) => {
            lemma_name_no_arrow(inputs, l);
            lemma_name_no_arrow(inputs, r);
            lemma_infix_count(signal_name(inputs, l), " + "@, signal_name(inputs, r));
            lemma_assign_line_count(t, signal_name(inputs, l) + " + "@ + signal_name(inputs, r));
        },
        OpType::Mul(l, r) => {
            lemma_name_no_arrow(inputs, l);
            lemma_name_no_arrow(inputs, r);
            lemma_infix_count(signal_name(inputs, l), " * "@, signal_name(inputs, r));
            lemma_assign_line_count(t, signal_name(inputs, l) + " * "@ + signal_name(inputs, r));
        },
        OpType::Alias(s) => {
            lemma_name_no_arrow(inputs, s);
            lemma_assign_line_count(t, signal_name(inputs, s));
        },
        OpType::Scale(s, k) => {
            lemma_name_no_arrow(inputs, s);
            lemma_decimal_no_arrow(k as nat);
            lemma_infix_count(signal_name(inputs, s), " * "@, decimal(k as nat));
            lemma_assign_line_count(t, signal_name(inputs, s) + " * "@ + decimal(k as nat));
        },
        OpType::Pow5(s) => {
            let src = signal_name(inputs, s);
            let sq = t + "_sq"@;
            let qd = t + "_qd"@;
            lemma_name_no_arrow(inputs, s);
            lemma_char_count_concat(t, "_sq"@, '<');
            lemma_char_count_concat(t, "_qd"@, '<');
            lemma_signal_line_count(sq);
            lemma_signal_line_count(qd);
            lemma_infix_count(src, " * "@, src);
            lemma_infix_count(sq, " * "@, sq);
            lemma_infix_count(qd, " * "@, src);
            lemma_assign_line_count(sq, src + " * "@ + src);
            lemma_assign_line_count(qd, sq + " * "@ + sq);
            lemma_assign_line_count(t, qd + " * "@ + src);
            let l1 = signal_line(sq);
            let l2 = assign_line(sq, src + " * "@ + src);
            let l3 = signal_line(qd);
            let l4 = assign_line(qd, sq + " * "@ + sq);
            let l5 = assign_line(t, qd + " * "@ + src);
            lemma_char_count_concat(l1, l2, '<');
            lemma_char_count_concat(l1 + l2, l3, '<');
            lemma_char_count_concat(l1 + l2 + l3, l4, '<');
            lemma_char_count_concat(l1 + l2 + l3 + l4, l5, '<');
        },
        _ => {},
    }
}

/// The constraint lines from node `k` on, with the constraints of the nodes before
/// `k`, count all constraints of the DAG.
proof fn lemma_constraints_text_count(dag: DAG, k: int)
    requires
        0 <= k <= dag.nodes.len(),
    ensures
        char_count(constraints_text(dag, k), '<') + nodes_constraint_total(dag.nodes@.take(k))
            == nodes_constraint_total(dag.nodes@),
    decreases dag.nodes.len() - k,
{
    if k < dag.nodes.len() {
        lemma_constraints_text_count(dag, k + 1);
        lemma_constraint_text_count(circom_input_ids(dag), dag.nodes[k]);
        lemma_char_count_concat(
            constraints_text(dag, k + 1),
            constraint_text(circom_input_ids(dag), dag.nodes[k]),
            '<',
        );
        assert(dag.nodes@.take(k + 1).drop_last() =~= dag.nodes@.take(k));
    } else {
        assert(dag.nodes@.take(k) =~= dag.nodes@);
    }
}

/// The declarations hold no `<`.
proof fn lemma_declarations_count(dag: DAG, n: int)
    ensures
        char_count(declarations_text(dag, n), '<') == 0,
    decreases n,
{
    reveal_strlit("s_");
    reveal_with_fuel(char_count, 3);
    if n > 0 {
        let id = dag.nodes[n - 1].id;
        lemma_declarations_count(dag, n - 1);
        lemma_decimal_no_arrow(id as nat);
        lemma_char_count_concat("s_"@, decimal(id as nat), '<');
        lemma_signal_line_count("s_"@ + decimal(id as nat));
        let line = if last_index_of(circom_input_ids(dag), id) is Some {
            seq![]
        } else {
            signal_line("s_"@ + decimal(id as nat))
        };
        lemma_char_count_concat(declarations_text(dag, n - 1), line, '<');
    }
}

/// The first `n` output connections hold one `<` each.
proof fn lemma_outputs_count(dag: DAG, n: int)
    requires
        0 <= n,
    ensures
        char_count(outputs_text(dag, n), '<') == n,
    decreases n,
{
    reveal_strlit("out[");
    reveal_strlit("]");
    reveal_with_fuel(char_count, 5);
    if n > 0 {
        lemma_outputs_count(dag, n - 1);
        let target = "out["@ + decimal((n - 1) as nat) + "]"@;
        lemma_decimal_no_arrow((n - 1) as nat);
        lemma_char_count_concat("out["@, decimal((n - 1) as nat), '<');
        lemma_char_count_concat("out["@ + decimal((n - 1) as nat), "]"@, '<');
        lemma_name_no_arrow(circom_input_ids(dag), (n - 1) as usize);
        lemma_assign_line_count(target, signal_name(circom_input_ids(dag), (n - 1) as usize));
        lemma_char_count_concat(
            outputs_text(dag, n - 1),
            assign_line(target, signal_name(circom_input_ids(dag), (n - 1) as usize)),
            '<',
        );
    }
}

/// The Circom source of a DAG holds one `<`, the start of a `<==`, per constraint
/// of the DAG and one per output connection: as many as its R1CS instance has rows,
/// plus the outputs.
#[verifier::spinoff_prover]
pub proof fn lemma_circom_constraint_lines(dag: DAG)
    ensures
        char_count(circom_text(dag), '<') == nodes_constraint_total(dag.nodes@) + dag.num_outputs,
{
    let inputs = circom_input_ids(dag);
    let p0 = "pragma circom 2.0.0;\ntemplate Challenge() {\n"@;
    let p1 = "    signal input in["@;
    let p2 = "];\n"@;
    let p3 = "    signal output out["@;
    let p4 = "}\ncomponent main = Challenge();\n"@;
    lemma_header_no_arrow();
    lemma_decimal_no_arrow(inputs.len());
    lemma_decimal_no_arrow(dag.num_outputs as nat);
    lemma_declarations_count(dag, dag.nodes.len() as int);
    lemma_constraints_text_count(dag, 0);
    assert(dag.nodes@.take(0) =~= Seq::<Node>::empty());
    lemma_outputs_count(dag, dag.num_outputs as int);
    let d = declarations_text(dag, dag.nodes.len() as int);
    let c = constraints_text(dag, 0);
    let o = outputs_text(dag, dag.num_outputs as int);
    let s1 = p0 + p1;
    let s2 = s1 + decimal(inputs.len());
    let s3 = s2 + p2;
    let s4 = s3 + p3;
    let s5 = s4 + decimal(dag.num_outputs as nat);
    let s6 = s5 + p2;
    let s7 = s6 + d;
    let s8 = s7 + c;
    let s9 = s8 + o;
    lemma_char_count_concat(p0, p1, '<');
    lemma_char_count_concat(s1, decimal(inputs.len()), '<');
    lemma_char_count_concat(s2, p2, '<');
    lemma_char_count_concat(s3, p3, '<');
    lemma_char_count_concat(s4, decimal(dag.num_outputs as nat), '<');
    lemma_char_count_concat(s5, p2, '<');
    lemma_char_count_concat(s6, d, '<');
    lemma_char_count_concat(s7, c, '<');
    lemma_char_count_concat(s8, o, '<');
    lemma_char_count_concat(s9, p4, '<');
    assert(circom_text(dag) =~= s9 + p4);
}

/// Number of places at which `" <== "` ends in `s`.
pub open spec fn arrow_count(s: Seq<char>) -> nat
    decreases s.len(),
{
    if s.len() == 0 {
        0
    } else {
        arrow_count(s.drop_last()) + if s.len() >= 5 && s.subrange(s.len() - 5, s.len() as int) == " <== "@ {
            1nat
        } else {
            0nat
        }
    }
}

/// Every `<` of `s` is the `<` of a whole `" <== "`.
#[verifier::opaque]
pub open spec fn arrows_whole(s: Seq<char>) -> bool {
    forall|k: int|
        #![trigger s[k]]
        0 <= k < s.len() && s[k] == '<' ==> 1 <= k && k + 4 <= s.len() && s.subrange(k - 1, k + 4) == " <== "@
}

/// A text without `<` has none at any place.
proof fn lemma_no_arrow_at(s: Seq<char>, k: int)
    requires
        char_count(s, '<') == 0,
        0 <= k < s.len(),
    ensures
        s[k] != '<',
    decreases s.len(),
{
    if k < s.len() - 1 {
        lemma_no_arrow_at(s.drop_last(), k);
    }
}

/// A text without `<` holds its arrows whole.
proof fn lemma_zero_whole(s: Seq<char>)
    requires
        char_count(s, '<') == 0,
    ensures
        arrows_whole(s),
{
    reveal(arrows_whole);
    assert forall|k: int| 0 <= k < s.len() implies s[k] != '<' by {
        lemma_no_arrow_at(s, k);
    }
}

/// Texts that hold their arrows whole still do once joined.
proof fn lemma_whole_concat(a: Seq<char>, b: Seq<char>)
    requires
        arrows_whole(a),
        arrows_whole(b),
    ensures
        arrows_whole(a + b),
{
    reveal(arrows_whole);
    let s = a + b;
    assert forall|k: int| 0 <= k < s.len() && s[k] == '<' implies 1 <= k && k + 4 <= s.len() && s.subrange(
        k - 1,
        k + 4,
    ) == " <== "@ by {
        if k < a.len() {
            assert(a[k] == '<');
            assert(s.subrange(k - 1, k + 4) =~= a.subrange(k - 1, k + 4));
        } else {
            let k2 = k - a.len();
            assert(b[k2] == '<');
            assert(s.subrange(k - 1, k + 4) =~= b.subrange(k2 - 1, k2 + 4));
        }
    }
}

/// An assignment line of `<`-free sides holds its arrow whole.
proof fn lemma_assign_whole(target: Seq<char>, rhs: Seq<char>)
    requires
        char_count(target, '<') == 0,
        char_count(rhs, '<') == 0,
    ensures
        arrows_whole(assign_line(target, rhs)),
{
    reveal_strlit("    ");
    reveal_strlit(" <== ");
    reveal_strlit(";\n");
    assert(char_count("    "@, '<') == 0) by {
        reveal_with_fuel(char_count, 5);
    }
    assert(char_count(";\n"@, '<') == 0) by {
        reveal_with_fuel(char_count, 3);
    }
    assert(arrows_whole(" <== "@)) by {
        reveal(arrows_whole);
        assert(" <== "@.subrange(0, 5) =~= " <== "@);
    }
    lemma_zero_whole("    "@);
    lemma_zero_whole(target);
    lemma_zero_whole(rhs);
    lemma_zero_whole(";\n"@);
    lemma_whole_concat("    "@, target);
    lemma_whole_concat("    "@ + target, " <== "@);
    lemma_whole_concat("    "@ + target + " <== "@, rhs);
    lemma_whole_concat("    "@ + target + " <== "@ + rhs, ";\n"@);
}

/// The constraint lines of a node hold their arrows whole.
proof fn lemma_constraint_whole(inputs: Seq<usize>, node: Node)
    ensures
        arrows_whole(constraint_text(inputs, node)),
{
    reveal_strlit(" + ");
    reveal_strlit(" * ");
    reveal_strlit("_sq");
    reveal_strlit("_qd");
    reveal_with_fuel(char_count, 4);
    let t = signal_name(inputs, node.id);
    lemma_name_no_arrow(inputs, node.id);
    match node.op {
        OpType::Add(l, r) => {
            lemma_name_no_arrow(inputs, l);
            lemma_name_no_arrow(inputs, r);
            lemma_infix_count(signal_name(inputs, l), " + "@, signal_name(inputs, r));
            lemma_assign_whole(t, signal_name(inputs, l) + " + "@ + signal_name(inputs, r));
        },
        OpType::Mul(l, r) => {
            lemma_name_no_arrow(inputs, l);
            lemma_name_no_arrow(inputs, r);
            lemma_infix_count(signal_name(inputs, l), " * "@, signal_name(inputs, r));
            lemma_assign_whole(t, signal_name(inputs, l) + " * "@ + signal_name(inputs, r));
        },
        OpType::Alias(s) => {
            lemma_name_no_arrow(inputs, s);
            lemma_assign_whole(t, signal_name(inputs, s));
        },
        OpType::Scale(s, k) => {
            lemma_name_no_arrow(inputs, s);
            lemma_decimal_no_arrow(k as nat);
            lemma_infix_count(signal_name(inputs, s), " * "@, decimal(k as nat));
            lemma_assign_whole(t, signal_name(inputs, s) + " * "@ + decimal(k as nat));
        },
        OpType::Pow5(s) => {
            let src = signal_name(inputs, s);
            let sq = t + "_sq"@;
            let qd = t + "_qd"@;
            lemma_name_no_arrow(inputs, s);
            lemma_char_count_concat(t, "_sq"@, '<');
            lemma_char_count_concat(t, "_qd"@, '<');
            lemma_signal_line_count(sq);
            lemma_signal_line_count(qd);
            lemma_infix_count(src, " * "@, src);
            lemma_infix_count(sq, " * "@, sq);
            lemma_infix_count(qd, " * "@, src);
            let l1 = signal_line(sq);
            let l2 = assign_line(sq, src + " * "@ + src);
            let l3 = signal_line(qd);
            let l4 = assign_line(qd, sq + " * "@ + sq);
            let l5 = assign_line(t, qd + " * "@ + src);
            lemma_zero_whole(l1);
            lemma_zero_whole(l3);
            lemma_assign_whole(sq, src + " * "@ + src);
            lemma_assign_whole(qd, sq + " * "@ + sq);
            lemma_assign_whole(t, qd + " * "@ + src);
            lemma_whole_concat(l1, l2);
            lemma_whole_concat(l1 + l2, l3);
            lemma_whole_concat(l1 + l2 + l3, l4);
            lemma_whole_concat(l1 + l2 + l3 + l4, l5);
        },
        _ => {
            lemma_zero_whole(constraint_text(inputs, node));
        },
    }
}

/// The constraint lines from node `k` on hold their arrows whole.
proof fn lemma_constraints_whole(dag: DAG, k: int)
    ensures
        arrows_whole(constraints_text(dag, k)),
    decreases dag.nodes.len() - k,
{
    if 0 <= k < dag.nodes.len() {
        lemma_constraints_whole(dag, k + 1);
        lemma_constraint_whole(circom_input_ids(dag), dag.nodes[k]);
        lemma_whole_concat(constraints_text(dag, k + 1), constraint_text(circom_input_ids(dag), dag.nodes[k]));
    } else {
        lemma_zero_whole(constraints_text(dag, k));
    }
}

/// The first `n` output connections hold their arrows whole.
proof fn lemma_outputs_whole(dag: DAG, n: int)
    ensures
        arrows_whole(outputs_text(dag, n)),
    decreases n,
{
    reveal_strlit("out[");
    reveal_strlit("]");
    reveal_with_fuel(char_count, 5);
    if n > 0 {
        lemma_outputs_whole(dag, n - 1);
        let target = "out["@ + decimal((n - 1) as nat) + "]"@;
        lemma_decimal_no_arrow((n - 1) as nat);
        lemma_char_count_concat("out["@, decimal((n - 1) as nat), '<');
        lemma_char_count_concat("out["@ + decimal((n - 1) as nat), "]"@, '<');
        lemma_name_no_arrow(circom_input_ids(dag), (n - 1) as usize);
        lemma_assign_whole(target, signal_name(circom_input_ids(dag), (n - 1) as usize));
        lemma_whole_concat(
            outputs_text(dag, n - 1),
            assign_line(target, signal_name(circom_input_ids(dag), (n - 1) as usize)),
        );
    } else {
        lemma_zero_whole(outputs_text(dag, n));
    }
}

/// In a text that holds its arrows whole, the arrows ending by place `n` are the
/// `<` before place `n - 3`.
proof fn lemma_arrow_prefix(s: Seq<char>, n: int)
    requires
        arrows_whole(s),
        3 <= n <= s.len(),
    ensures
        arrow_count(s.take(n)) == char_count(s.take(n - 3), '<'),
    decreases n,
{
    reveal(arrows_whole);
    reveal_with_fuel(arrow_count, 4);
    reveal_with_fuel(char_count, 4);
    if n > 3 {
        lemma_arrow_prefix(s, n - 1);
        assert(s.take(n).drop_last() =~= s.take(n - 1));
        assert(s.take(n - 3).drop_last() =~= s.take(n - 4));
        if n >= 5 {
            assert(s.take(n).subrange(n - 5, n) =~= s.subrange(n - 5, n));
        }
        if s[n - 4] == '<' {
            assert(s.subrange(n - 5, n) == " <== "@);
        }
        if n >= 5 && s.subrange(n - 5, n) == " <== "@ {
            reveal_strlit(" <== ");
            assert(s.subrange(n - 5, n)[1] == s[n - 4]);
        }
    } else {
        assert(s.take(0) =~= Seq::<char>::empty());
    }
}

/// In a text that holds its arrows whole, the `" <== "` are as many as the `<`.
proof fn lemma_arrow_count_whole(s: Seq<char>)
    requires
        arrows_whole(s),
    ensures
        arrow_count(s) == char_count(s, '<'),
{
    reveal(arrows_whole);
    if s.len() >= 3 {
        let n = s.len() as int;
        lemma_arrow_prefix(s, n);
        assert(s.take(n) =~= s);
        let tail = s.skip(n - 3);
        assert(s =~= s.take(n - 3) + tail);
        lemma_char_count_concat(s.take(n - 3), tail, '<');
        assert(char_count(tail, '<') == 0) by {
            reveal_with_fuel(char_count, 4);
            assert(tail[0] == s[n - 3] && tail[1] == s[n - 2] && tail[2] == s[n - 1]);
        }
    } else {
        reveal_with_fuel(char_count, 3);
        reveal_with_fuel(arrow_count, 3);
    }
}

/// The fixed pieces of the Circom source hold no `<`.
proof fn lemma_header_no_arrow()
    ensures
        char_count("pragma circom 2.0.0;\ntemplate Challenge() {\n"@, '<') == 0,
        char_count("    signal input in["@, '<') == 0,
        char_count("];\n"@, '<') == 0,
        char_count("    signal output out["@, '<') == 0,
        char_count("}\ncomponent main = Challenge();\n"@, '<') == 0,
{
    reveal_strlit("pragma circom 2.0.0;\ntemplate Challenge() {\n");
    reveal_strlit("    signal input in[");
    reveal_strlit("];\n");
    reveal_strlit("    signal output out[");
    reveal_strlit("}\ncomponent main = Challenge();\n");
    assert(char_count("pragma circom 2.0.0;\ntemplate Challenge() {\n"@, '<') == 0) by {
        reveal_with_fuel(char_count, 45);
    }
    assert(char_count("    signal input in["@, '<') == 0) by {
        reveal_with_fuel(char_count, 21);
    }
    assert(char_count("];\n"@, '<') == 0) by {
        reveal_with_fuel(char_count, 4);
    }
    assert(char_count("    signal output out["@, '<') == 0) by {
        reveal_with_fuel(char_count, 23);
    }
    assert(char_count("}\ncomponent main = Challenge();\n"@, '<') == 0) by {
        reveal_with_fuel(char_count, 33);
    }
}

/// The Circom source of a DAG holds its arrows whole.
#[verifier::spinoff_prover]
proof fn lemma_circom_whole(dag: DAG)
    ensures
        arrows_whole(circom_text(dag)),
{
    let inputs = circom_input_ids(dag);
    let p0 = "pragma circom 2.0.0;\ntemplate Challenge() {\n"@;
    let p1 = "    signal input in["@;
    let p2 = "];\n"@;
    let p3 = "    signal output out["@;
    let p4 = "}\ncomponent main = Challenge();\n"@;
    lemma_header_no_arrow();
    lemma_decimal_no_arrow(inputs.len());
    lemma_decimal_no_arrow(dag.num_outputs as nat);
    lemma_declarations_count(dag, dag.nodes.len() as int);
    let d = declarations_text(dag, dag.nodes.len() as int);
    let c = constraints_text(dag, 0);
    let o = outputs_text(dag, dag.num_outputs as int);
    lemma_zero_whole(p0);
    lemma_zero_whole(p1);
    lemma_zero_whole(p2);
    lemma_zero_whole(p3);
    lemma_zero_whole(p4);
    lemma_zero_whole(decimal(inputs.len()));
    lemma_zero_whole(decimal(dag.num_outputs as nat));
    lemma_zero_whole(d);
    lemma_constraints_whole(dag, 0);
    lemma_outputs_whole(dag, dag.num_outputs as int);
    let s1 = p0 + p1;
    let s2 = s1 + decimal(inputs.len());
    let s3 = s2 + p2;
    let s4 = s3 + p3;
    let s5 = s4 + decimal(dag.num_outputs as nat);
    let s6 = s5 + p2;
    let s7 = s6 + d;
    let s8 = s7 + c;
    let s9 = s8 + o;
    lemma_whole_concat(p0, p1);
    lemma_whole_concat(s1, decimal(inputs.len()));
    lemma_whole_concat(s2, p2);
    lemma_whole_concat(s3, p3);
    lemma_whole_concat(s4, decimal(dag.num_outputs as nat));
    lemma_whole_concat(s5, p2);
    lemma_whole_concat(s6, d);
    lemma_whole_concat(s7, c);
    lemma_whole_concat(s8, o);
    lemma_whole_concat(s9, p4);
    assert(circom_text(dag) =~= s9 + p4);
}

/// The Circom source of a DAG holds one `" <== "` per constraint of the DAG and one
/// per output connection.
pub proof fn lemma_circom_arrow_lines(dag: DAG)
    ensures
        arrow_count(circom_text(dag)) == nodes_constraint_total(dag.nodes@) + dag.num_outputs,
{
    lemma_circom_constraint_lines(dag);
    lemma_circom_whole(dag);
    lemma_arrow_count_whole(circom_text(dag));
}

} // verus!
