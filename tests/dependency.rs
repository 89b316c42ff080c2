use datadep::callgraph::{callsite_locations, CallGraph};
use datadep::closure::{all_data_dep_on, dependencies_from_sites, DepError, Oracle};
use datadep::matrix::data_deps;
use datadep::mir::{
    BasicBlockData, Body, Callee, Location, Operand, Place, ProjectionElem, Rvalue, Statement,
    Terminator,
};
use std::collections::HashSet;

fn place(local: usize) -> Place {
    Place { local, projection: Vec::new() }
}

fn copy(local: usize) -> Operand {
    Operand::Copy(place(local))
}

fn assign(dest: usize, rvalue: Rvalue) -> Statement {
    Statement::Assign(place(dest), rvalue)
}

fn block(statements: Vec<Statement>) -> BasicBlockData {
    BasicBlockData { statements, terminator: Terminator::Return }
}

fn call_block(statements: Vec<Statement>, func: Callee, args: Vec<Operand>, dest: usize) -> BasicBlockData {
    BasicBlockData {
        statements,
        terminator: Terminator::Call { func, args, destination: place(dest), target: Some(1) },
    }
}

fn no_oracle() -> Oracle {
    Oracle {
        unchecked_access: Vec::new(),
        atomic_operation: Vec::new(),
        address_of: Vec::new(),
        raw_pointer: Vec::new(),
    }
}

fn set(items: &[usize]) -> HashSet<usize> {
    items.iter().copied().collect()
}

/// A call graph with the function under analysis (instance 0) and one callee
/// per site, each site at the terminator of the given block.
fn graph_with_sites(sites: &[(usize, usize)]) -> CallGraph {
    let mut g = CallGraph::new();
    let caller = g.add_instance();
    for &(block, statement_index) in sites {
        let callee = g.add_instance();
        g.add_callsite(caller, callee, Some(Location { block, statement_index }));
    }
    g
}

fn deps_of(seed: usize, body: &Body, g: &CallGraph, oracle: &Oracle) -> Result<HashSet<usize>, DepError> {
    let m = data_deps(body);
    all_data_dep_on(seed, &m, g, 0, body, oracle)
}

#[test]
fn transitive_chain() {
    // b = a; c = b; d = c + x   with a=0 b=1 c=2 d=3 x=4
    let body = Body {
        local_count: 5,
        blocks: vec![block(vec![
            assign(1, Rvalue::Use(copy(0))),
            assign(2, Rvalue::Use(copy(1))),
            assign(3, Rvalue::BinaryOp(copy(2), copy(4))),
        ])],
    };
    let g = graph_with_sites(&[]);
    let r = deps_of(0, &body, &g, &no_oracle()).unwrap();
    assert_eq!(r, set(&[0, 1, 2, 3]));
    assert!(!r.contains(&4));
}

#[test]
fn cycle_terminates() {
    // a = a + b   with a=0 b=1
    let body = Body {
        local_count: 2,
        blocks: vec![block(vec![assign(0, Rvalue::BinaryOp(copy(0), copy(1)))])],
    };
    let g = graph_with_sites(&[]);
    // b flows into a; nothing flows from a into b
    assert_eq!(deps_of(0, &body, &g, &no_oracle()).unwrap(), set(&[0]));
    assert_eq!(deps_of(1, &body, &g, &no_oracle()).unwrap(), set(&[0, 1]));
}

#[test]
fn self_loop_seed_is_reached() {
    let body = Body {
        local_count: 2,
        blocks: vec![block(vec![
            assign(0, Rvalue::CheckedBinaryOp(copy(0), Operand::Constant(1))),
            assign(1, Rvalue::UnaryOp(copy(0))),
        ])],
    };
    let g = graph_with_sites(&[]);
    assert_eq!(deps_of(0, &body, &g, &no_oracle()).unwrap(), set(&[0, 1]));
}

#[test]
fn untracked_kind_isolated() {
    // p = (q, r)   with p=0 q=1 r=2; also s = &q, t = discriminant(q)
    let body = Body {
        local_count: 5,
        blocks: vec![block(vec![
            assign(0, Rvalue::Aggregate(vec![copy(1), copy(2)])),
            assign(3, Rvalue::Ref(place(1))),
            assign(4, Rvalue::Discriminant(place(1))),
        ])],
    };
    let g = graph_with_sites(&[]);
    let r = deps_of(1, &body, &g, &no_oracle()).unwrap();
    assert_eq!(r, set(&[1]));
    assert!(!r.contains(&0));
}

#[test]
fn reflexive_for_every_local() {
    let body = Body { local_count: 3, blocks: vec![block(vec![assign(1, Rvalue::Cast(copy(0)))])] };
    let g = graph_with_sites(&[]);
    for l in 0..3 {
        assert!(deps_of(l, &body, &g, &no_oracle()).unwrap().contains(&l));
    }
}

#[test]
fn constants_and_projections() {
    // a.0 = b; c = 7; d = a + 3   with a=0 b=1 c=2 d=3
    let field = Place { local: 0, projection: vec![ProjectionElem::Field(0)] };
    let body = Body {
        local_count: 4,
        blocks: vec![block(vec![
            Statement::Assign(field, Rvalue::Use(Operand::Move(place(1)))),
            assign(2, Rvalue::Use(Operand::Constant(7))),
            Statement::StorageLive(3),
            assign(3, Rvalue::BinaryOp(copy(0), Operand::Constant(3))),
            Statement::Nop,
        ])],
    };
    let m = data_deps(&body);
    assert_eq!(m.local_count(), 4);
    assert!(m.depends(1, 0));
    assert!(m.depends(0, 3));
    assert!(!m.depends(0, 1));
    assert!(!m.depends(2, 3));
    let mut reached: Vec<usize> = m.immediate_dep(0);
    reached.sort();
    assert_eq!(reached, vec![3]);
    let g = graph_with_sites(&[]);
    assert_eq!(deps_of(1, &body, &g, &no_oracle()).unwrap(), set(&[0, 1, 3]));
}

#[test]
fn visit_assign_adds_edges() {
    let body = Body { local_count: 3, blocks: vec![] };
    let mut m = data_deps(&body);
    assert!(!m.depends(0, 2));
    m.visit_assign(&place(2), &Rvalue::BinaryOp(copy(0), copy(1)));
    assert!(m.depends(0, 2));
    assert!(m.depends(1, 2));
    assert!(!m.depends(2, 0));
    m.visit_assign(&place(0), &Rvalue::Aggregate(vec![copy(1)]));
    assert!(!m.depends(1, 0));
}

#[test]
fn block_order_does_not_matter() {
    let b0 = block(vec![assign(1, Rvalue::Use(copy(0)))]);
    let b1 = block(vec![assign(2, Rvalue::BinaryOp(copy(1), copy(3)))]);
    let body1 = Body { local_count: 4, blocks: vec![b0.clone(), b1.clone()] };
    let body2 = Body { local_count: 4, blocks: vec![b1, b0] };
    let m1 = data_deps(&body1);
    let m2 = data_deps(&body2);
    for x in 0..4 {
        for y in 0..4 {
            assert_eq!(m1.depends(x, y), m2.depends(x, y));
        }
    }
    let g = graph_with_sites(&[]);
    assert_eq!(deps_of(0, &body1, &g, &no_oracle()).unwrap(), set(&[0, 1, 2]));
    assert_eq!(deps_of(0, &body2, &g, &no_oracle()).unwrap(), set(&[0, 1, 2]));
}

#[test]
fn added_assignment_only_grows() {
    let before = Body { local_count: 4, blocks: vec![block(vec![assign(1, Rvalue::Use(copy(0)))])] };
    let after = Body {
        local_count: 4,
        blocks: vec![block(vec![
            assign(1, Rvalue::Use(copy(0))),
            assign(2, Rvalue::Cast(copy(1))),
        ])],
    };
    let g = graph_with_sites(&[]);
    let r1 = deps_of(0, &before, &g, &no_oracle()).unwrap();
    let r2 = deps_of(0, &after, &g, &no_oracle()).unwrap();
    assert_eq!(r1, set(&[0, 1]));
    assert_eq!(r2, set(&[0, 1, 2]));
    assert!(r1.is_subset(&r2));
}

#[test]
fn single_arg_call_passes_through() {
    // x = a; y = f(x)   with a=0 x=1 y=2
    let body = Body {
        local_count: 3,
        blocks: vec![call_block(vec![assign(1, Rvalue::Use(copy(0)))], Callee::FnDef(42), vec![copy(1)], 2)],
    };
    let g = graph_with_sites(&[(0, 1)]);
    assert_eq!(deps_of(0, &body, &g, &no_oracle()).unwrap(), set(&[0, 1, 2]));
    let body_indirect = Body {
        local_count: 3,
        blocks: vec![call_block(vec![assign(1, Rvalue::Use(copy(0)))], Callee::Indirect, vec![copy(1)], 2)],
    };
    assert_eq!(deps_of(0, &body_indirect, &g, &no_oracle()).unwrap(), set(&[0, 1, 2]));
}

#[test]
fn call_on_seed_itself_is_not_passed() {
    // y = f(a)   with a=0 y=1: the seed joins its set only after the calls
    let body = Body {
        local_count: 2,
        blocks: vec![call_block(vec![], Callee::FnDef(42), vec![copy(0)], 1)],
    };
    let g = graph_with_sites(&[(0, 0)]);
    assert_eq!(deps_of(0, &body, &g, &no_oracle()).unwrap(), set(&[0]));
}

fn privileged_body() -> Body {
    // x = a; y = g(x, k)   with a=0 x=1 k=2 y=3
    Body {
        local_count: 4,
        blocks: vec![call_block(
            vec![assign(1, Rvalue::Use(copy(0)))],
            Callee::FnDef(7),
            vec![copy(1), copy(2)],
            3,
        )],
    }
}

#[test]
fn privileged_call_passes_through() {
    let body = privileged_body();
    let g = graph_with_sites(&[(0, 1)]);
    let lists: [fn(&mut Oracle) -> &mut Vec<u64>; 4] = [
        |o| &mut o.unchecked_access,
        |o| &mut o.atomic_operation,
        |o| &mut o.address_of,
        |o| &mut o.raw_pointer,
    ];
    for pick in lists {
        let mut oracle = no_oracle();
        pick(&mut oracle).push(7);
        assert!(oracle.is_privileged(Callee::FnDef(7)));
        assert_eq!(deps_of(0, &body, &g, &oracle).unwrap(), set(&[0, 1, 3]));
    }
}

#[test]
fn unrecognized_two_arg_call_blocks() {
    let body = privileged_body();
    let g = graph_with_sites(&[(0, 1)]);
    let mut oracle = no_oracle();
    oracle.atomic_operation.push(8);
    let r = deps_of(0, &body, &g, &oracle).unwrap();
    assert_eq!(r, set(&[0, 1]));
    assert!(!r.contains(&3));
}

#[test]
fn oracle_predicates() {
    let oracle = Oracle {
        unchecked_access: vec![1],
        atomic_operation: vec![2],
        address_of: vec![3],
        raw_pointer: vec![4],
    };
    assert!(oracle.is_get_unchecked(1) && !oracle.is_get_unchecked(2));
    assert!(oracle.is_atomic_operate(2) && !oracle.is_atomic_operate(3));
    assert!(oracle.is_addr(3) && !oracle.is_addr(4));
    assert!(oracle.is_ptr_operate(4) && !oracle.is_ptr_operate(1));
    assert!(!oracle.is_privileged(Callee::FnDef(5)));
    assert!(!oracle.is_privileged(Callee::Indirect));
}

#[test]
fn call_sites_apply_in_order() {
    // block 0: x = a; y = f(x)   block 1: z = f(y)   with a=0 x=1 y=2 z=3
    let body = Body {
        local_count: 4,
        blocks: vec![
            call_block(vec![assign(1, Rvalue::Use(copy(0)))], Callee::FnDef(1), vec![copy(1)], 2),
            call_block(vec![], Callee::FnDef(1), vec![copy(2)], 3),
        ],
    };
    let m = data_deps(&body);
    let s0 = Location { block: 0, statement_index: 1 };
    let s1 = Location { block: 1, statement_index: 0 };
    let oracle = no_oracle();
    assert_eq!(dependencies_from_sites(0, &m, &body, &vec![s0, s1], &oracle), set(&[0, 1, 2, 3]));
    assert_eq!(dependencies_from_sites(0, &m, &body, &vec![s1, s0], &oracle), set(&[0, 1, 2]));
    let out_of_body = Location { block: 9, statement_index: 0 };
    assert_eq!(dependencies_from_sites(0, &m, &body, &vec![out_of_body], &oracle), set(&[0, 1]));
}

#[test]
fn missing_call_sites_is_an_error() {
    let body = privileged_body();
    let mut g = CallGraph::new();
    let caller = g.add_instance();
    let callee = g.add_instance();
    g.add_callsite(caller, callee, None);
    assert_eq!(deps_of(0, &body, &g, &no_oracle()), Err(DepError::MissingCallSites { callee: 1 }));
}

#[test]
fn unresolved_call_site_is_an_error() {
    let body = privileged_body();
    let g = graph_with_sites(&[(7, 0)]);
    assert_eq!(deps_of(0, &body, &g, &no_oracle()), Err(DepError::UnresolvedCallSite { block: 7 }));
}

#[test]
fn callsite_locations_of_a_pair() {
    let mut g = CallGraph::new();
    let a = g.add_instance();
    let b = g.add_instance();
    let c = g.add_instance();
    assert_eq!((a, b, c), (0, 1, 2));
    g.add_callsite(a, b, Some(Location { block: 3, statement_index: 2 }));
    g.add_callsite(a, b, None);
    g.add_callsite(a, b, Some(Location { block: 5, statement_index: 0 }));
    g.add_callsite(b, c, Some(Location { block: 1, statement_index: 1 }));
    assert_eq!(
        callsite_locations(&g, a, b),
        Some(vec![Location { block: 3, statement_index: 2 }, Location { block: 5, statement_index: 0 }])
    );
    assert_eq!(callsite_locations(&g, b, c), Some(vec![Location { block: 1, statement_index: 1 }]));
    assert_eq!(callsite_locations(&g, a, c), None);
    assert_eq!(callsite_locations(&g, c, b), None);
    let mut callees = g.callees(a);
    callees.sort();
    assert_eq!(callees, vec![1]);
    assert_eq!(g.callees(c), Vec::<usize>::new());
}

#[test]
fn calls_of_other_functions_are_ignored() {
    // instance 1 calls instance 2; the body under analysis is instance 0's
    let body = Body {
        local_count: 3,
        blocks: vec![call_block(vec![assign(1, Rvalue::Use(copy(0)))], Callee::FnDef(42), vec![copy(1)], 2)],
    };
    let mut g = CallGraph::new();
    let _f = g.add_instance();
    let h = g.add_instance();
    let k = g.add_instance();
    g.add_callsite(h, k, Some(Location { block: 0, statement_index: 1 }));
    assert_eq!(deps_of(0, &body, &g, &no_oracle()).unwrap(), set(&[0, 1]));
}
