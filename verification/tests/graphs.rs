//! Expressions, graphs, their keys, and the worker pool.

use numtoy::cache::{graph_bytes, hash_graph};
use numtoy::calculator::analyze_and_optimize;
use numtoy::graph::{ArenaGraph, Node};
use numtoy::ir::{flat_var, Expr};
use numtoy::mode::{ExecutionMode, ModeState};
use numtoy::pool::{
    idle_backoff, next_source, process_task, submit, worker_role, xtreme_run_inline,
    DedicatedAction, DedicatedState, IdleAction, Role, Source, Submission, Task, TaskStep,
    WorkerState,
};
use numtoy::soft_float::FloatOp;
use numtoy::types::{DataType, Scalar};
use std::sync::Arc;

fn unit(op: FloatOp, a: u64, b: u64) -> u64 {
    let x = f64::from_bits(a);
    let y = f64::from_bits(b);
    match op {
        FloatOp::Add => (x + y).to_bits(),
        FloatOp::Sub => (x - y).to_bits(),
        FloatOp::Mul => (x * y).to_bits(),
        FloatOp::Div => (x / y).to_bits(),
        FloatOp::Pow10 => 10f64.powi(a as i32).to_bits(),
    }
}

fn var(id: usize, size: usize) -> Expr {
    flat_var(id, "v", DataType::Float(64), size, vec![0u8; 8 * size], None, false)
}

fn constant(v: f64) -> Expr {
    Expr::new_const(Scalar::DynamicFloat(v.to_bits()))
}

/// The value of an expression where variable `i` is `env[i]`.
fn value(e: &Expr, env: &[f64]) -> f64 {
    match e {
        Expr::Variable { id, .. } => env[*id],
        Expr::Constant { val } => f64::from_bits(val.to_double(&unit)),
        Expr::Add { left, right } => value(left, env) + value(right, env),
        Expr::Sub { left, right } => value(left, env) - value(right, env),
        Expr::Mul { left, right } => value(left, env) * value(right, env),
        Expr::Div { left, right } => value(left, env) / value(right, env),
        Expr::DequantizeMatmul { .. } => 0.0,
    }
}

#[test]
fn derivatives_follow_the_rules() {
    let (x, y) = (var(0, 1), var(1, 1));
    let env = [3.0, 5.0];
    let sum = x.clone().add(y.clone());
    assert_eq!(value(&sum.grad(0), &env), 1.0);
    let difference = x.clone().sub(y.clone());
    assert_eq!(value(&difference.grad(1), &env), -1.0);
    let product = x.clone().mul(y.clone());
    assert_eq!(value(&product.grad(0), &env), 5.0);
    let quotient = x.clone().div(y.clone());
    assert_eq!(value(&quotient.grad(0), &env), 0.2);
    assert_eq!(value(&quotient.grad(1), &env), -3.0 / 25.0);
    assert_eq!(value(&constant(4.0).grad(0), &env), 0.0);
    assert_eq!(value(&x.grad(7), &env), 0.0);
}

#[test]
fn expressions_take_type_and_size_from_their_operands() {
    let e = var(0, 3).add(constant(1.0));
    assert_eq!(e.data_type(), DataType::Float(64));
    assert_eq!(e.size(), 3);
    assert_eq!(e.get_scale(), None);
    assert!(!e.steal_sign());
    let f = Expr::new_const(Scalar::FloatingInt { value: 5, scale: 2 });
    assert_eq!(f.get_scale(), Some(2));
}

#[test]
fn graphs_hold_operands_first() {
    let e = var(0, 2).add(var(1, 2)).mul(constant(2.0));
    let g = ArenaGraph::from_expr(&e);
    assert_eq!(g.nodes.len(), 5);
    assert_eq!(g.root, 4);
    assert!(matches!(g.nodes[2], Node::Add(0, 1)));
    assert!(matches!(g.nodes[4], Node::Mul(2, 3)));
    assert_eq!(g.data_type(g.root), DataType::Float(64));
    assert_eq!(g.size(g.root), 2);
    assert!(!g.is_stabilized);
    let kept = analyze_and_optimize(Arc::new(g.clone()));
    assert_eq!(kept.nodes.len(), g.nodes.len());
}

#[test]
fn keys_are_digests_of_the_expression() {
    let g = ArenaGraph::from_expr(&constant(2.0));
    let mut bytes = b"Const".to_vec();
    bytes.extend_from_slice(&2.0f64.to_le_bytes());
    assert_eq!(graph_bytes(&g, &unit), bytes);
    assert_eq!(&hash_graph(&g, &unit), blake3::hash(&bytes).as_bytes());
    let sum = ArenaGraph::from_expr(&var(0, 2).add(var(1, 2)));
    let difference = ArenaGraph::from_expr(&var(0, 2).sub(var(1, 2)));
    let other = ArenaGraph::from_expr(&var(0, 3).add(var(1, 3)));
    assert_ne!(hash_graph(&sum, &unit), hash_graph(&difference, &unit));
    assert_ne!(hash_graph(&sum, &unit), hash_graph(&other, &unit));
}

#[test]
fn tasks_go_through_their_stages() {
    let graph = Arc::new(ArenaGraph::from_expr(&var(0, 2)));
    let hash = [7u8; 32];
    let tile = Task::Tile { graph: graph.clone(), hash };
    let fuse = match process_task(tile.clone(), false, false) {
        TaskStep::Push(t) => t,
        _ => panic!("expected a push"),
    };
    assert!(matches!(fuse, Task::Fuse { .. }));
    let marked = match process_task(fuse, false, false) {
        TaskStep::Push(t) => t,
        _ => panic!("expected a push"),
    };
    match &marked {
        Task::Fuse { graph, .. } => assert!(graph.is_stabilized),
        _ => panic!("expected fusing"),
    }
    let assemble = match process_task(marked, false, false) {
        TaskStep::Push(t) => t,
        _ => panic!("expected a push"),
    };
    assert!(matches!(process_task(assemble.clone(), false, false), TaskStep::Compile { .. }));
    assert!(matches!(process_task(assemble.clone(), false, true), TaskStep::Done));
    assert!(matches!(
        process_task(tile.clone(), true, false),
        TaskStep::Push(Task::Assemble { .. })
    ));
    assert!(matches!(xtreme_run_inline(tile.clone(), false), TaskStep::Compile { .. }));
    assert!(matches!(xtreme_run_inline(tile, true), TaskStep::Done));
}

#[test]
fn submissions_are_routed() {
    let no = |_h: &[u8; 32]| false;
    let yes = |_h: &[u8; 32]| true;
    let graph = || ArenaGraph::from_expr(&var(0, 2));
    assert!(matches!(submit(graph(), false, &no, &unit).1, Submission::Pool(Task::Tile { .. })));
    assert!(matches!(submit(graph(), false, &yes, &unit).1, Submission::Cached));
    assert!(matches!(
        submit(graph(), true, &yes, &unit).1,
        Submission::Dedicated(Task::Assemble { .. })
    ));
    assert_eq!(submit(graph(), false, &no, &unit).0, hash_graph(&graph(), &unit));
}

#[test]
fn workers_have_roles() {
    let roles: Vec<Role> = (0..8).map(|i| worker_role(i, 8)).collect();
    assert_eq!(roles[0], Role::Tiler);
    assert_eq!(roles[1], Role::Tiler);
    assert_eq!(roles[2], Role::Fuser);
    assert_eq!(roles[5], Role::Fuser);
    assert_eq!(roles[6], Role::Assembler);
    assert_eq!(worker_role(0, 1), Role::Tiler);
    assert_eq!(next_source(Role::Tiler, None), Some(Source::Own));
    assert_eq!(next_source(Role::Tiler, Some(Source::Own)), Some(Source::Submitted));
    assert_eq!(next_source(Role::Tiler, Some(Source::Submitted)), None);
    assert_eq!(next_source(Role::Assembler, Some(Source::Submitted)), Some(Source::Peers));
    assert_eq!(next_source(Role::Assembler, Some(Source::Peers)), None);
}

#[test]
fn idle_workers_back_off() {
    assert_eq!(idle_backoff(199, false, false), IdleAction::Spin);
    assert_eq!(idle_backoff(200, false, false), IdleAction::Yield);
    assert_eq!(idle_backoff(400, false, false), IdleAction::SleepMs(1));
    assert_eq!(idle_backoff(403, false, false), IdleAction::SleepMs(8));
    assert_eq!(idle_backoff(9999, false, false), IdleAction::SleepMs(16));
    assert_eq!(idle_backoff(9999, true, false), IdleAction::Yield);
    assert_eq!(idle_backoff(0, true, true), IdleAction::SleepMs(1));
    let mut w = WorkerState::new();
    assert!(w.begin_turn(ExecutionMode::Hyper));
    assert!(!w.begin_turn(ExecutionMode::Xtreme));
    assert_eq!(w.found_nothing(false), IdleAction::Spin);
    assert_eq!(w.idle_count, 1);
    w.found_task();
    assert_eq!(w.idle_count, 0);
}

#[test]
fn the_dedicated_worker_sleeps_while_its_mode_is_off() {
    let mut d = DedicatedState::new();
    assert_eq!(d.begin_turn(false), (false, DedicatedAction::SleepMs(10)));
    assert_eq!(d.begin_turn(true), (true, DedicatedAction::Take));
    assert_eq!(d.begin_turn(true), (false, DedicatedAction::Take));
}

#[test]
fn modes_have_names_and_numbers() {
    for m in [
        ExecutionMode::Default,
        ExecutionMode::Eager,
        ExecutionMode::Hyper,
        ExecutionMode::Xtreme,
    ] {
        assert_eq!(ExecutionMode::from_code(m.code()), m);
    }
    assert_eq!(ExecutionMode::from_code(9), ExecutionMode::Default);
    assert_eq!(ExecutionMode::from_name("hyper"), ExecutionMode::Hyper);
    assert_eq!(ExecutionMode::from_name("unknown"), ExecutionMode::Default);
    let mut s = ModeState::new();
    let c = s.set_execution_mode(ExecutionMode::Xtreme);
    assert!(c.elevate && c.start_worker);
    let c = s.set_execution_mode(ExecutionMode::Xtreme);
    assert!(c.elevate && !c.start_worker);
    assert_eq!(s.get_execution_mode(), ExecutionMode::Xtreme);
    s.emergency_cleanup();
    assert_eq!(s.get_execution_mode(), ExecutionMode::Default);
    assert!(!s.xtreme_active);
}
