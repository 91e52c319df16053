use tig_circuit_tools::{Bias, Category, DagBuilder, Draw, Node, OpType, Outcome};

#[test]
fn builder_asks_for_a_category_first() {
    let b = DagBuilder::new(10, 2);
    assert_eq!(b.next_draw(), Draw::Category);
}

#[test]
fn builder_with_no_budget_is_done_at_once() {
    let b = DagBuilder::new(0, 3);
    assert_eq!(b.next_draw(), Draw::Done);
    let dag = b.finish();
    assert_eq!(dag.nodes.len(), 3);
    assert_eq!(dag.num_outputs, 3);
    assert_eq!(dag.num_inputs, 3);
    assert!(dag.nodes.iter().all(|n| n.op == OpType::Input));
}

#[test]
fn builder_refuses_outcomes_it_did_not_ask_for() {
    let mut b = DagBuilder::new(5, 1);
    assert!(!b.step(Outcome::Coin(true)));
    assert!(!b.step(Outcome::Index(0)));
    assert!(!b.step(Outcome::Scale(7)));
    assert_eq!(b.next_draw(), Draw::Category);
}

#[test]
fn builder_hand_driven_run() {
    let mut b = DagBuilder::new(3, 1);

    // Node 0: an alias of a fresh node 1.
    assert!(b.step(Outcome::Category(Category::Alias)));
    assert_eq!(b.next_draw(), Draw::Coin(Bias::Never));
    assert!(b.step(Outcome::Coin(false)));

    // Node 1: a power does not fit (1 + 3 > 3), so it becomes a product.
    assert_eq!(b.next_draw(), Draw::Category);
    assert!(b.step(Outcome::Category(Category::Power)));
    assert_eq!(b.next_draw(), Draw::Coin(Bias::Even));
    assert!(b.step(Outcome::Coin(true)));
    assert_eq!(b.next_draw(), Draw::Coin(Bias::Redundancy));
    // No node after 1 exists yet: a fresh node 2 is made even on a reuse coin.
    assert!(b.step(Outcome::Coin(true)));
    assert_eq!(b.next_draw(), Draw::Coin(Bias::Redundancy));
    assert!(b.step(Outcome::Coin(true)));
    assert_eq!(b.next_draw(), Draw::Index(1));
    assert!(!b.step(Outcome::Index(1)));
    assert!(b.step(Outcome::Index(0)));

    // Node 2: a scaling of a fresh node 3.
    assert_eq!(b.next_draw(), Draw::Category);
    assert!(b.step(Outcome::Category(Category::Linear)));
    assert!(b.step(Outcome::Coin(false)));
    assert_eq!(b.next_draw(), Draw::Scale);
    assert!(!b.step(Outcome::Scale(1)));
    assert!(!b.step(Outcome::Scale(1000)));
    assert!(b.step(Outcome::Scale(5)));

    // The budget is spent.
    assert_eq!(b.next_draw(), Draw::Done);
    let dag = b.finish();
    let ops: Vec<OpType> = dag.nodes.iter().map(|n: &Node| n.op).collect();
    assert_eq!(
        ops,
        vec![OpType::Alias(1), OpType::Mul(2, 2), OpType::Scale(3, 5), OpType::Input]
    );
    assert_eq!(dag.num_inputs, 1);
    assert_eq!(dag.num_outputs, 1);
    assert_eq!(dag.total_constraints(), 3);
}

#[test]
fn builder_power_costs_three_constraints() {
    let mut b = DagBuilder::new(4, 1);
    assert!(b.step(Outcome::Category(Category::Power)));
    assert_eq!(b.next_draw(), Draw::Coin(Bias::Redundancy));
    assert!(b.step(Outcome::Coin(false)));
    assert_eq!(b.next_draw(), Draw::Category);
    assert!(b.step(Outcome::Category(Category::Arith)));
    assert!(b.step(Outcome::Coin(false)));
    assert!(b.step(Outcome::Coin(false)));
    assert!(b.step(Outcome::Coin(false)));
    assert_eq!(b.next_draw(), Draw::Done);
    let dag = b.finish();
    let ops: Vec<OpType> = dag.nodes.iter().map(|n| n.op).collect();
    assert_eq!(ops, vec![OpType::Pow5(1), OpType::Add(2, 3), OpType::Input, OpType::Input]);
    assert_eq!(dag.total_constraints(), 4);
    assert_eq!(dag.num_inputs, 2);
}

#[test]
fn builder_reuses_a_later_node() {
    let mut b = DagBuilder::new(2, 2);
    assert!(b.step(Outcome::Category(Category::Alias)));
    assert!(b.step(Outcome::Coin(true)));
    assert_eq!(b.next_draw(), Draw::Index(1));
    assert!(b.step(Outcome::Index(0)));
    assert!(b.step(Outcome::Category(Category::Alias)));
    // The last node of the frontier has no node after it: the operand is fresh.
    assert!(b.step(Outcome::Coin(true)));
    assert_eq!(b.next_draw(), Draw::Done);
    let dag = b.finish();
    let ops: Vec<OpType> = dag.nodes.iter().map(|n| n.op).collect();
    assert_eq!(ops, vec![OpType::Alias(1), OpType::Alias(2), OpType::Input]);
}

fn run(outcomes: &[Outcome]) -> tig_circuit_tools::DAG {
    let mut b = DagBuilder::new(3, 1);
    for &o in outcomes {
        b.step(o);
    }
    assert_eq!(b.next_draw(), Draw::Done);
    b.finish()
}

#[test]
fn builder_equal_draws_give_equal_dags_with_a_positive_baseline() {
    let draws = [
        Outcome::Category(Category::Arith),
        Outcome::Coin(false),
        Outcome::Coin(false),
        Outcome::Coin(false),
        Outcome::Category(Category::Alias),
        Outcome::Coin(false),
        Outcome::Category(Category::Alias),
        Outcome::Coin(false),
    ];
    let d1 = run(&draws);
    let d2 = run(&draws);
    let view = |d: &tig_circuit_tools::DAG| d.nodes.iter().map(|n| (n.id, n.op)).collect::<Vec<_>>();
    assert_eq!(view(&d1), view(&d2));
    assert_eq!((d1.num_inputs, d1.num_outputs), (d2.num_inputs, d2.num_outputs));
    assert_eq!(d1.total_constraints(), 3);
    assert!(d1.total_constraints() > 0);
}
