//! Laws of the dependency set.

use vstd::prelude::*;
use crate::closure::{
    Oracle, apply_calls, call_step, dependency_set, first_arg_in, is_path, lemma_closed_holds_reach,
    reach_set, reaches,
};
use crate::matrix::{edge, matrix_of};
use crate::mir::{Body, Callee, Local, Location, Operand, Statement, Terminator};

verus! {

broadcast use vstd::seq_lib::group_to_multiset_ensures;

/// The call at the end of a block: callee, arguments and destination local.
pub open spec fn call_at(body: Body, block: usize) -> Option<(Callee, Seq<Operand>, Local)> {
    if block < body.blocks@.len() {
        match body.blocks@[block as int].terminator {
            Terminator::Call { func, args, destination, target } => Some(
                (func, args@, destination.local),
            ),
            _ => None,
        }
    } else {
        None
    }
}

/// A seed always belongs to its own dependency set.
pub proof fn lemma_seed_in_own_set(
    body: Body,
    m: Seq<Seq<bool>>,
    seed: Local,
    sites: Seq<Location>,
    oracle: Oracle,
)
    ensures
        dependency_set(body, m, seed, sites, oracle).contains(seed),
{
}

/// Any set that holds what the seed reaches in one step, is closed under
/// edges, and holds only what the seed reaches, is the reach set: so the
/// order in which a worklist is processed does not change the result.
pub proof fn lemma_closure_unique(m: Seq<Seq<bool>>, seed: Local, vis: Set<Local>)
    requires
        forall|v: Local| vis.contains(v) ==> reaches(m, seed, v),
        forall|w: Local| edge(m, seed, w) ==> vis.contains(w),
        forall|v: Local, w: Local| vis.contains(v) && edge(m, v, w) ==> vis.contains(w),
    ensures
        vis == reach_set(m, seed),
{
    assert forall|t: Local| reach_set(m, seed).contains(t) implies vis.contains(t) by {
        lemma_closed_holds_reach(m, vis, seed, t);
    }
    assert(vis =~= reach_set(m, seed));
}

/// Visiting the blocks of a body in another order builds the same matrix.
pub proof fn lemma_block_order_irrelevant(
    body1: Body,
    body2: Body,
    m1: Seq<Seq<bool>>,
    m2: Seq<Seq<bool>>,
)
    requires
        body1.local_count == body2.local_count,
        body1.blocks@.to_multiset() == body2.blocks@.to_multiset(),
        matrix_of(m1, body1),
        matrix_of(m2, body2),
    ensures
        m1 == m2,
{
    assert forall|x: Local, y: Local| body1.has_edge(x, y) implies body2.has_edge(x, y) by {
        lemma_edge_in_rearranged(body1, body2, x, y);
    }
    assert forall|x: Local, y: Local| body2.has_edge(x, y) implies body1.has_edge(x, y) by {
        lemma_edge_in_rearranged(body2, body1, x, y);
    }
    assert forall|x: int| 0 <= x < m1.len() implies m1[x] =~= m2[x] by {
        assert forall|y: int| 0 <= y < m1[x].len() implies m1[x][y] == m2[x][y] by {
            assert(edge(m1, x as Local, y as Local) == edge(m2, x as Local, y as Local));
        }
    }
    assert(m1 =~= m2);
}

proof fn lemma_edge_in_rearranged(body1: Body, body2: Body, x: Local, y: Local)
    requires
        body1.blocks@.to_multiset() == body2.blocks@.to_multiset(),
        body1.has_edge(x, y),
    ensures
        body2.has_edge(x, y),
{
    let (b, i) = choose|b: int, i: int|
        0 <= b < body1.blocks@.len() && 0 <= i < body1.blocks@[b].statements@.len()
            && crate::mir::stmt_edge(#[trigger] body1.blocks@[b].statements@[i], x, y);
    let blk = body1.blocks@[b];
    assert(body1.blocks@.contains(blk));
    assert(body1.blocks@.to_multiset().count(blk) > 0);
    assert(body2.blocks@.contains(blk));
    let b2 = choose|b2: int| 0 <= b2 < body2.blocks@.len() && body2.blocks@[b2] == blk;
    assert(crate::mir::stmt_edge(body2.blocks@[b2].statements@[i], x, y));
}

proof fn lemma_call_step_grows(body: Body, vis: Set<Local>, loc: Location, oracle: Oracle)
    ensures
        vis.subset_of(call_step(body, vis, loc, oracle)),
{
}

proof fn lemma_call_step_monotone(
    body: Body,
    v: Set<Local>,
    w: Set<Local>,
    loc: Location,
    oracle: Oracle,
)
    requires
        v.subset_of(w),
    ensures
        call_step(body, v, loc, oracle).subset_of(call_step(body, w, loc, oracle)),
{
}

proof fn lemma_apply_monotone(
    body: Body,
    v: Set<Local>,
    w: Set<Local>,
    sites: Seq<Location>,
    oracle: Oracle,
)
    requires
        v.subset_of(w),
    ensures
        apply_calls(body, v, sites, oracle).subset_of(apply_calls(body, w, sites, oracle)),
    decreases sites.len(),
{
    if sites.len() > 0 {
        lemma_apply_monotone(body, v, w, sites.drop_last(), oracle);
        lemma_call_step_monotone(
            body,
            apply_calls(body, v, sites.drop_last(), oracle),
            apply_calls(body, w, sites.drop_last(), oracle),
            sites.last(),
            oracle,
        );
    }
}

proof fn lemma_apply_grows(body: Body, vis: Set<Local>, sites: Seq<Location>, oracle: Oracle)
    ensures
        vis.subset_of(apply_calls(body, vis, sites, oracle)),
    decreases sites.len(),
{
    if sites.len() > 0 {
        lemma_apply_grows(body, vis, sites.drop_last(), oracle);
        lemma_call_step_grows(body, apply_calls(body, vis, sites.drop_last(), oracle), sites.last(), oracle);
    }
}

proof fn lemma_prefix_within(body: Body, vis: Set<Local>, sites: Seq<Location>, n: int, oracle: Oracle)
    requires
        0 <= n <= sites.len(),
    ensures
        apply_calls(body, vis, sites.take(n), oracle).subset_of(apply_calls(body, vis, sites, oracle)),
    decreases sites.len() - n,
{
    if n == sites.len() {
        assert(sites.take(n) =~= sites);
    } else {
        assert(sites.drop_last().take(n) =~= sites.take(n));
        lemma_prefix_within(body, vis, sites.drop_last(), n, oracle);
        lemma_call_step_grows(body, apply_calls(body, vis, sites.drop_last(), oracle), sites.last(), oracle);
    }
}

/// The set before site `i`, once site `i` is applied, stays in the result.
proof fn lemma_step_at(body: Body, vis: Set<Local>, sites: Seq<Location>, i: int, oracle: Oracle)
    requires
        0 <= i < sites.len(),
    ensures
        vis.subset_of(apply_calls(body, vis, sites.take(i), oracle)),
        call_step(body, apply_calls(body, vis, sites.take(i), oracle), sites[i], oracle).subset_of(
            apply_calls(body, vis, sites, oracle),
        ),
{
    lemma_apply_grows(body, vis, sites.take(i), oracle);
    assert(sites.take(i + 1).drop_last() =~= sites.take(i));
    assert(sites.take(i + 1).last() == sites[i]);
    lemma_prefix_within(body, vis, sites, i + 1, oracle);
}

/// A call with exactly one argument, whatever its callee, passes dependency
/// from that argument (reached from the seed) to its destination.
pub proof fn lemma_single_arg_call_passes(
    body: Body,
    m: Seq<Seq<bool>>,
    seed: Local,
    sites: Seq<Location>,
    oracle: Oracle,
    i: int,
    f: Callee,
    args: Seq<Operand>,
    x: Local,
    y: Local,
)
    requires
        0 <= i < sites.len(),
        call_at(body, sites[i].block) == Some((f, args, y)),
        args.len() == 1,
        args[0].spec_local() == Some(x),
        reach_set(m, seed).contains(x),
    ensures
        dependency_set(body, m, seed, sites, oracle).contains(y),
{
    let vis = reach_set(m, seed);
    lemma_step_at(body, vis, sites, i, oracle);
    let pre = apply_calls(body, vis, sites.take(i), oracle);
    assert(first_arg_in(args, pre));
    assert(call_step(body, pre, sites[i], oracle).contains(y));
}

/// A call of a privileged kind, with any number of further arguments,
/// passes dependency from its first argument (reached from the seed) to its
/// destination.
pub proof fn lemma_privileged_call_passes(
    body: Body,
    m: Seq<Seq<bool>>,
    seed: Local,
    sites: Seq<Location>,
    oracle: Oracle,
    i: int,
    f: Callee,
    args: Seq<Operand>,
    x: Local,
    y: Local,
)
    requires
        0 <= i < sites.len(),
        call_at(body, sites[i].block) == Some((f, args, y)),
        oracle.spec_privileged(f),
        args.len() >= 1,
        args[0].spec_local() == Some(x),
        reach_set(m, seed).contains(x),
    ensures
        dependency_set(body, m, seed, sites, oracle).contains(y),
{
    let vis = reach_set(m, seed);
    lemma_step_at(body, vis, sites, i, oracle);
    let pre = apply_calls(body, vis, sites.take(i), oracle);
    assert(first_arg_in(args, pre));
    let v1 = if args.len() == 1 && first_arg_in(args, pre) {
        pre.insert(y)
    } else {
        pre
    };
    assert(pre.subset_of(v1));
    assert(first_arg_in(args, v1));
    assert(call_step(body, pre, sites[i], oracle).contains(y));
}

/// A two-argument call of a callee that is not privileged passes nothing:
/// the set is the same after it.
pub proof fn lemma_unrecognized_pair_call_blocks(
    body: Body,
    vis: Set<Local>,
    loc: Location,
    oracle: Oracle,
    f: Callee,
    args: Seq<Operand>,
    y: Local,
)
    requires
        call_at(body, loc.block) == Some((f, args, y)),
        args.len() == 2,
        !oracle.spec_privileged(f),
    ensures
        call_step(body, vis, loc, oracle) == vis,
{
}

proof fn lemma_apply_same_terminators(
    body1: Body,
    body2: Body,
    vis: Set<Local>,
    sites: Seq<Location>,
    oracle: Oracle,
)
    requires
        body1.blocks@.len() == body2.blocks@.len(),
        forall|b: int|
            0 <= b < body1.blocks@.len() ==> (#[trigger] body1.blocks@[b]).terminator
                == body2.blocks@[b].terminator,
    ensures
        apply_calls(body1, vis, sites, oracle) == apply_calls(body2, vis, sites, oracle),
    decreases sites.len(),
{
    if sites.len() > 0 {
        lemma_apply_same_terminators(body1, body2, vis, sites.drop_last(), oracle);
        let l = sites.last();
        if l.block < body1.blocks@.len() {
            assert(body1.blocks@[l.block as int].terminator == body2.blocks@[l.block as int].terminator);
        }
    }
}

/// Adding an assignment to a block can only grow a seed's dependency set.
pub proof fn lemma_added_assignment_grows(
    body1: Body,
    body2: Body,
    b: int,
    st: Statement,
    m1: Seq<Seq<bool>>,
    m2: Seq<Seq<bool>>,
    seed: Local,
    sites: Seq<Location>,
    oracle: Oracle,
)
    requires
        body2.local_count == body1.local_count,
        body2.blocks@.len() == body1.blocks@.len(),
        0 <= b < body1.blocks@.len(),
        forall|bb: int| 0 <= bb < body1.blocks@.len() && bb != b ==> #[trigger] body2.blocks@[bb] == body1.blocks@[bb],
        body2.blocks@[b].statements@ == body1.blocks@[b].statements@.push(st),
        body2.blocks@[b].terminator == body1.blocks@[b].terminator,
        matrix_of(m1, body1),
        matrix_of(m2, body2),
    ensures
        dependency_set(body1, m1, seed, sites, oracle).subset_of(
            dependency_set(body2, m2, seed, sites, oracle),
        ),
{
    assert forall|x: Local, y: Local| edge(m1, x, y) implies edge(m2, x, y) by {
        let (bb, ii) = choose|bb: int, ii: int|
            0 <= bb < body1.blocks@.len() && 0 <= ii < body1.blocks@[bb].statements@.len()
                && crate::mir::stmt_edge(#[trigger] body1.blocks@[bb].statements@[ii], x, y);
        if bb == b {
            assert(body2.blocks@[bb].statements@[ii] == body1.blocks@[bb].statements@[ii]);
        } else {
            assert(body2.blocks@[bb] == body1.blocks@[bb]);
        }
        assert(body2.has_edge(x, y));
    }
    assert forall|t: Local| reach_set(m1, seed).contains(t) implies reach_set(m2, seed).contains(t) by {
        let p = choose|p: Seq<Local>| is_path(m1, p, seed, t);
        assert forall|i: int| 0 <= i < p.len() - 1 implies edge(m2, #[trigger] p[i], p[i + 1]) by {
            assert(edge(m1, p[i], p[i + 1]));
        }
        assert(is_path(m2, p, seed, t));
    }
    assert forall|bb: int| 0 <= bb < body1.blocks@.len() implies (#[trigger] body1.blocks@[bb]).terminator
        == body2.blocks@[bb].terminator by {
        if bb != b {
            assert(body2.blocks@[bb] == body1.blocks@[bb]);
        }
    }
    lemma_apply_monotone(body1, reach_set(m1, seed), reach_set(m2, seed), sites, oracle);
    lemma_apply_same_terminators(body1, body2, reach_set(m2, seed), sites, oracle);
}

} // verus!
