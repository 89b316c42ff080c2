//! The dependency set of a seed local: every local reachable from it along
//! one-hop edges, widened across the calls that the oracle or the call shape
//! marks as dependency-transparent.

use vstd::prelude::*;
use vstd::set_lib::{lemma_int_range, lemma_len_subset, set_int_range};
use crate::matrix::{DataDeps, edge, square};
use crate::mir::{Body, Callee, DefId, Local, Location, Operand, Terminator};
use crate::callgraph::{CallGraph, InstanceId, callsite_locations, has_pair, located, missing_sites, pair_index};
use std::collections::HashSet;

verus! {

broadcast use vstd::std_specs::hash::group_hash_axioms;

/// Classifies callees as dependency-transparent: unchecked element access,
/// atomic operation, address-of, or raw-pointer operation.
#[derive(Clone, Debug)]
pub struct Oracle {
    pub unchecked_access: Vec<DefId>,
    pub atomic_operation: Vec<DefId>,
    pub address_of: Vec<DefId>,
    pub raw_pointer: Vec<DefId>,
}

fn list_contains(v: &Vec<DefId>, d: DefId) -> (r: bool)
    ensures
        r == v@.contains(d),
{
    let mut i: usize = 0;
    while i < v.len()
        invariant
            i <= v@.len(),
            forall|k: int| 0 <= k < i ==> v@[k] != d,
        decreases v@.len() - i,
    {
        if v[i] == d {
            return true;
        }
        i = i + 1;
    }
    false
}

impl Oracle {
    pub open spec fn spec_privileged(&self, func: Callee) -> bool {
        match func {
            Callee::FnDef(d) => self.unchecked_access@.contains(d) || self.atomic_operation@.contains(
                d,
            ) || self.address_of@.contains(d) || self.raw_pointer@.contains(d),
            Callee::Indirect => false,
        }
    }

    pub fn is_get_unchecked(&self, d: DefId) -> (r: bool)
        ensures
            r == self.unchecked_access@.contains(d),
    {
        list_contains(&self.unchecked_access, d)
    }

    pub fn is_atomic_operate(&self, d: DefId) -> (r: bool)
        ensures
            r == self.atomic_operation@.contains(d),
    {
        list_contains(&self.atomic_operation, d)
    }

    pub fn is_addr(&self, d: DefId) -> (r: bool)
        ensures
            r == self.address_of@.contains(d),
    {
        list_contains(&self.address_of, d)
    }

    pub fn is_ptr_operate(&self, d: DefId) -> (r: bool)
        ensures
            r == self.raw_pointer@.contains(d),
    {
        list_contains(&self.raw_pointer, d)
    }

    /// A direct call of one of the four dependency-transparent kinds.
    pub fn is_privileged(&self, func: Callee) -> (r: bool)
        ensures
            r == self.spec_privileged(func),
    {
        match func {
            Callee::FnDef(d) => self.is_get_unchecked(d) || self.is_atomic_operate(d) || self.is_addr(
                d,
            ) || self.is_ptr_operate(d),
            Callee::Indirect => false,
        }
    }
}

/// `p` is a walk of at least one edge from `s` to `t`.
pub open spec fn is_path(m: Seq<Seq<bool>>, p: Seq<Local>, s: Local, t: Local) -> bool {
    &&& p.len() >= 2
    &&& p[0] == s
    &&& p.last() == t
    &&& forall|i: int| 0 <= i < p.len() - 1 ==> edge(m, #[trigger] p[i], p[i + 1])
}

/// `t` is computed, in one or more steps, from `s`.
pub open spec fn reaches(m: Seq<Seq<bool>>, s: Local, t: Local) -> bool {
    exists|p: Seq<Local>| is_path(m, p, s, t)
}

pub open spec fn reach_set(m: Seq<Seq<bool>>, s: Local) -> Set<Local> {
    Set::new(|t: Local| reaches(m, s, t))
}

/// The locals marked in a membership vector.
pub open spec fn marked(v: Seq<bool>) -> Set<Local> {
    Set::new(|x: Local| x < v.len() && v[x as int])
}

pub proof fn lemma_reach_one(m: Seq<Seq<bool>>, s: Local, t: Local)
    requires
        edge(m, s, t),
    ensures
        reaches(m, s, t),
{
    assert(is_path(m, seq![s, t], s, t));
}

pub proof fn lemma_reach_step(m: Seq<Seq<bool>>, s: Local, v: Local, w: Local)
    requires
        reaches(m, s, v),
        edge(m, v, w),
    ensures
        reaches(m, s, w),
{
    let p = choose|p: Seq<Local>| is_path(m, p, s, v);
    let q = p.push(w);
    assert forall|i: int| 0 <= i < q.len() - 1 implies edge(m, #[trigger] q[i], q[i + 1]) by {
        if i < p.len() - 1 {
            assert(q[i] == p[i] && q[i + 1] == p[i + 1]);
        }
    }
    assert(is_path(m, q, s, w));
}

/// A set that holds the successors of `s` and is closed under edges holds
/// everything reachable from `s`.
pub proof fn lemma_closed_holds_reach(m: Seq<Seq<bool>>, vis: Set<Local>, s: Local, t: Local)
    requires
        forall|w: Local| edge(m, s, w) ==> vis.contains(w),
        forall|v: Local, w: Local| vis.contains(v) && edge(m, v, w) ==> vis.contains(w),
        reaches(m, s, t),
    ensures
        vis.contains(t),
{
    let p = choose|p: Seq<Local>| is_path(m, p, s, t);
    lemma_path_in_closed(m, vis, s, p);
}

proof fn lemma_path_in_closed(m: Seq<Seq<bool>>, vis: Set<Local>, s: Local, p: Seq<Local>)
    requires
        forall|w: Local| edge(m, s, w) ==> vis.contains(w),
        forall|v: Local, w: Local| vis.contains(v) && edge(m, v, w) ==> vis.contains(w),
        is_path(m, p, s, p.last()),
    ensures
        vis.contains(p.last()),
    decreases p.len(),
{
    if p.len() == 2 {
        assert(edge(m, p[0], p[1]));
    } else {
        let q = p.drop_last();
        assert forall|i: int| 0 <= i < q.len() - 1 implies edge(m, #[trigger] q[i], q[i + 1]) by {
            assert(q[i] == p[i] && q[i + 1] == p[i + 1]);
        }
        lemma_path_in_closed(m, vis, s, q);
        assert(edge(m, p[p.len() - 2], p[p.len() - 1]));
    }
}

proof fn lemma_pop_keeps(wl0: Seq<Local>, wl: Seq<Local>, x: Local)
    requires
        wl0.len() > 0,
        wl0 == wl.push(x),
    ensures
        forall|w: Local| wl0.contains(w) ==> wl.contains(w) || w == x,
        forall|k: int| 0 <= k < wl.len() ==> wl[k] == wl0[k],
{
    assert forall|w: Local| wl0.contains(w) implies wl.contains(w) || w == x by {
        let k = choose|k: int| 0 <= k < wl0.len() && wl0[k] == w;
        if k < wl0.len() - 1 {
            assert(wl[k] == w);
        }
    }
}

/// Pushes the successors of `x` onto the worklist; what was there stays.
fn push_successors(data_deps: &DataDeps, x: Local, worklist: &mut Vec<Local>, Ghost(a): Ghost<Local>)
    requires
        square(data_deps@),
        x < data_deps@.len(),
        reaches(data_deps@, a, x),
        forall|k: int| 0 <= k < old(worklist)@.len() ==> reaches(data_deps@, a, #[trigger] old(worklist)@[k]),
    ensures
        forall|w: Local| old(worklist)@.contains(w) ==> final(worklist)@.contains(w),
        forall|w: Local| edge(data_deps@, x, w) ==> final(worklist)@.contains(w),
        forall|k: int| 0 <= k < final(worklist)@.len() ==> reaches(data_deps@, a, #[trigger] final(worklist)@[k]),
{
    let ghost m = data_deps@;
    let succs = data_deps.immediate_dep(x);
    let mut j: usize = 0;
    while j < succs.len()
        invariant
            j <= succs@.len(),
            square(m),
            m == data_deps@,
            forall|k: int| 0 <= k < succs@.len() ==> edge(m, x, #[trigger] succs@[k]),
            forall|k: int| 0 <= k < j ==> worklist@.contains(#[trigger] succs@[k]),
            forall|w: Local| old(worklist)@.contains(w) ==> worklist@.contains(w),
            reaches(m, a, x),
            forall|k: int| 0 <= k < worklist@.len() ==> reaches(m, a, #[trigger] worklist@[k]),
        decreases succs@.len() - j,
    {
        let ghost wl2 = worklist@;
        let y = succs[j];
        worklist.push(y);
        proof {
            lemma_reach_step(m, a, x, y);
            assert(worklist@[worklist@.len() - 1] == y);
            assert forall|w: Local| wl2.contains(w) implies worklist@.contains(w) by {
                let k = choose|k: int| 0 <= k < wl2.len() && wl2[k] == w;
                assert(worklist@[k] == w);
            }
            assert forall|k: int| 0 <= k < worklist@.len() implies reaches(
                m,
                a,
                #[trigger] worklist@[k],
            ) by {
                if k < wl2.len() {
                    assert(worklist@[k] == wl2[k]);
                }
            }
        }
        j = j + 1;
    }
    proof {
        assert forall|w: Local| edge(m, x, w) implies worklist@.contains(w) by {
            assert(succs@.contains(w));
            let k = choose|k: int| 0 <= k < succs@.len() && succs@[k] == w;
            assert(worklist@.contains(succs@[k]));
        }
    }
}

/// What the worklist exploration from `a` keeps: everything marked or queued
/// is reachable, and every edge out of `a` or out of a marked local ends at a
/// marked or queued local.
#[verifier::opaque]
spec fn explore_inv(m: Seq<Seq<bool>>, a: Local, vis: Seq<bool>, wl: Seq<Local>) -> bool {
    &&& vis.len() == m.len()
    &&& forall|k: int| 0 <= k < wl.len() ==> reaches(m, a, #[trigger] wl[k])
    &&& forall|v: Local| v < vis.len() && #[trigger] vis[v as int] ==> reaches(m, a, v)
    &&& forall|v: Local, w: Local|
        v < vis.len() && vis[v as int] && #[trigger] edge(m, v, w) ==> vis[w as int] || wl.contains(w)
    &&& forall|w: Local| #[trigger] edge(m, a, w) ==> vis[w as int] || wl.contains(w)
}

/// Takes the top of the worklist; where it is new, marks it and queues its
/// successors.
fn explore_step(
    data_deps: &DataDeps,
    visited: &mut Vec<bool>,
    worklist: &mut Vec<Local>,
    Ghost(a): Ghost<Local>,
) -> (fresh: Option<Local>)
    requires
        square(data_deps@),
        a < data_deps@.len(),
        explore_inv(data_deps@, a, old(visited)@, old(worklist)@),
        old(worklist)@.len() > 0,
    ensures
        explore_inv(data_deps@, a, final(visited)@, final(worklist)@),
        match fresh {
            Some(x) => x < old(visited)@.len() && !old(visited)@[x as int] && final(visited)@
                == old(visited)@.update(x as int, true),
            None => final(visited)@ == old(visited)@ && final(worklist)@.len() < old(worklist)@.len(),
        },
{
    let ghost m = data_deps@;
    let ghost wl0 = worklist@;
    let ghost vis0 = visited@;
    let x = worklist[worklist.len() - 1];
    worklist.pop();
    proof {
        assert(wl0 =~= worklist@.push(x));
        lemma_inv_top(m, a, vis0, wl0, worklist@, x);
    }
    if visited[x] {
        proof {
            lemma_inv_pop_seen(m, a, vis0, wl0, worklist@, x);
        }
        return None;
    }
    visited.set(x, true);
    let ghost wl1 = worklist@;
    push_successors(data_deps, x, worklist, Ghost(a));
    proof {
        lemma_inv_mark(m, a, vis0, wl0, wl1, worklist@, x);
    }
    Some(x)
}

proof fn lemma_inv_top(m: Seq<Seq<bool>>, a: Local, vis: Seq<bool>, wl0: Seq<Local>, wl: Seq<Local>, x: Local)
    requires
        square(m),
        explore_inv(m, a, vis, wl0),
        wl0 == wl.push(x),
    ensures
        reaches(m, a, x),
        x < vis.len(),
        vis.len() == m.len(),
        forall|k: int| 0 <= k < wl.len() ==> reaches(m, a, #[trigger] wl[k]),
{
    reveal(explore_inv);
    assert(wl0[wl0.len() - 1] == x);
    assert forall|k: int| 0 <= k < wl.len() implies reaches(m, a, #[trigger] wl[k]) by {
        assert(wl0[k] == wl[k]);
    }
    let p = choose|p: Seq<Local>| is_path(m, p, a, x);
    assert(edge(m, p[p.len() - 2], p[p.len() - 1]));
    assert(m[p[p.len() - 2] as int].len() == m.len());
}

proof fn lemma_inv_pop_seen(m: Seq<Seq<bool>>, a: Local, vis: Seq<bool>, wl0: Seq<Local>, wl: Seq<Local>, x: Local)
    requires
        explore_inv(m, a, vis, wl0),
        wl0 == wl.push(x),
        x < vis.len(),
        vis[x as int],
    ensures
        explore_inv(m, a, vis, wl),
{
    reveal(explore_inv);
    lemma_pop_keeps(wl0, wl, x);
    assert forall|k: int| 0 <= k < wl.len() implies reaches(m, a, #[trigger] wl[k]) by {
        assert(wl0[k] == wl[k]);
    }
    assert forall|v: Local, w: Local|
        v < vis.len() && vis[v as int] && #[trigger] edge(m, v, w) implies vis[w as int] || wl.contains(w) by {
        assert(wl0.contains(w) ==> wl.contains(w) || w == x);
    }
    assert forall|w: Local| #[trigger] edge(m, a, w) implies vis[w as int] || wl.contains(w) by {
        assert(wl0.contains(w) ==> wl.contains(w) || w == x);
    }
}

proof fn lemma_inv_mark(
    m: Seq<Seq<bool>>,
    a: Local,
    vis: Seq<bool>,
    wl0: Seq<Local>,
    wl1: Seq<Local>,
    wl2: Seq<Local>,
    x: Local,
)
    requires
        square(m),
        explore_inv(m, a, vis, wl0),
        wl0 == wl1.push(x),
        x < vis.len(),
        reaches(m, a, x),
        forall|w: Local| wl1.contains(w) ==> wl2.contains(w),
        forall|w: Local| edge(m, x, w) ==> wl2.contains(w),
        forall|k: int| 0 <= k < wl2.len() ==> reaches(m, a, #[trigger] wl2[k]),
    ensures
        explore_inv(m, a, vis.update(x as int, true), wl2),
{
    reveal(explore_inv);
    lemma_pop_keeps(wl0, wl1, x);
    let vis1 = vis.update(x as int, true);
    assert forall|v: Local| v < vis1.len() && #[trigger] vis1[v as int] implies reaches(m, a, v) by {
        if v != x {
            assert(vis[v as int]);
        }
    }
    assert forall|v: Local, w: Local|
        v < vis1.len() && vis1[v as int] && #[trigger] edge(m, v, w) implies vis1[w as int] || wl2.contains(w) by {
        assert(m[v as int].len() == m.len());
        if v == x {
            assert(wl2.contains(w));
        } else if w == x {
            assert(vis1[w as int]);
        } else {
            assert(vis[v as int]);
            assert(vis[w as int] || wl0.contains(w));
            if !vis[w as int] {
                assert(wl1.contains(w));
            }
        }
    }
    assert forall|w: Local| #[trigger] edge(m, a, w) implies vis1[w as int] || wl2.contains(w) by {
        assert(m[a as int].len() == m.len());
        if w == x {
            assert(vis1[w as int]);
        } else {
            assert(vis[w as int] || wl0.contains(w));
            if !vis[w as int] {
                assert(wl1.contains(w));
            }
        }
    }
}

/// The locals reachable from `a` in one or more steps, as a membership vector.
fn transitive_deps(data_deps: &DataDeps, a: Local) -> (visited: Vec<bool>)
    requires
        square(data_deps@),
        a < data_deps@.len(),
    ensures
        visited@.len() == data_deps@.len(),
        marked(visited@) == reach_set(data_deps@, a),
{
    let ghost m = data_deps@;
    let n = data_deps.local_count();
    let mut visited: Vec<bool> = Vec::new();
    let mut i: usize = 0;
    while i < n
        invariant
            i <= n,
            visited@ == Seq::new(i as nat, |k: int| false),
        decreases n - i,
    {
        visited.push(false);
        i = i + 1;
        assert(visited@ =~= Seq::new(i as nat, |k: int| false));
    }
    let mut worklist = data_deps.immediate_dep(a);
    proof {
        reveal(explore_inv);
        assert forall|k: int| 0 <= k < worklist@.len() implies reaches(m, a, #[trigger] worklist@[k]) by {
            lemma_reach_one(m, a, worklist@[k]);
        }
        lemma_int_range(0, n as int);
        assert(Set::<int>::empty() =~= Set::new(|v: int| 0 <= v < n && visited@[v]));
    }
    let ghost mut vset: Set<int> = Set::empty();
    let mut cnt: usize = 0;
    while worklist.len() > 0
        invariant
            square(m),
            m == data_deps@,
            n == m.len(),
            a < n,
            explore_inv(m, a, visited@, worklist@),
            visited@.len() == n,
            vset == Set::new(|v: int| 0 <= v < n && visited@[v]),
            set_int_range(0, n as int).finite(),
            set_int_range(0, n as int).len() == n,
            vset.finite(),
            cnt == vset.len(),
            cnt <= n,
        decreases n - cnt, worklist@.len(),
    {
        let ghost vis0 = visited@;
        proof {
            reveal(explore_inv);
        }
        let fresh = explore_step(data_deps, &mut visited, &mut worklist, Ghost(a));
        match fresh {
            Some(x) => {
                proof {
                    let vset1 = vset.insert(x as int);
                    assert(!vset.contains(x as int));
                    assert(vset1 =~= Set::new(|v: int| 0 <= v < n && visited@[v]));
                    assert(vset1.subset_of(set_int_range(0, n as int)));
                    lemma_len_subset(vset1, set_int_range(0, n as int));
                    vset = vset1;
                }
                cnt = cnt + 1;
            },
            None => {},
        }
    }
    proof {
        reveal(explore_inv);
        let vis = marked(visited@);
        assert forall|t: Local| reach_set(m, a).contains(t) implies vis.contains(t) by {
            assert forall|w: Local| edge(m, a, w) implies vis.contains(w) by {
                assert(edge(m, a, w));
            }
            assert forall|v: Local, w: Local| vis.contains(v) && edge(m, v, w) implies vis.contains(w) by {
                assert(edge(m, v, w));
            }
            lemma_closed_holds_reach(m, vis, a, t);
        }
        assert(vis =~= reach_set(m, a));
    }
    visited
}

/// The first argument is a place whose root local is in `vis`.
pub open spec fn first_arg_in(args: Seq<Operand>, vis: Set<Local>) -> bool {
    args.len() >= 1 && match args[0].spec_local() {
        Some(x) => vis.contains(x),
        None => false,
    }
}

/// The effect of one call site on the set: a call with exactly one argument
/// passes dependency from it to the destination, whatever the callee; a call
/// of a privileged kind passes it from its first argument.
pub open spec fn call_step(body: Body, vis: Set<Local>, loc: Location, oracle: Oracle) -> Set<Local> {
    if loc.block < body.blocks@.len() {
        match body.blocks@[loc.block as int].terminator {
            Terminator::Call { func, args, destination, target } => {
                let v1 = if args@.len() == 1 && first_arg_in(args@, vis) {
                    vis.insert(destination.local)
                } else {
                    vis
                };
                if oracle.spec_privileged(func) && first_arg_in(args@, v1) {
                    v1.insert(destination.local)
                } else {
                    v1
                }
            },
            _ => vis,
        }
    } else {
        vis
    }
}

/// The call sites applied in order.
pub open spec fn apply_calls(body: Body, vis: Set<Local>, sites: Seq<Location>, oracle: Oracle) -> Set<
    Local,
>
    decreases sites.len(),
{
    if sites.len() == 0 {
        vis
    } else {
        call_step(body, apply_calls(body, vis, sites.drop_last(), oracle), sites.last(), oracle)
    }
}

/// The dependency set of `seed`: what it reaches along edges, widened by the
/// call sites in order, and `seed` itself.
pub open spec fn dependency_set(
    body: Body,
    m: Seq<Seq<bool>>,
    seed: Local,
    sites: Seq<Location>,
    oracle: Oracle,
) -> Set<Local> {
    apply_calls(body, reach_set(m, seed), sites, oracle).insert(seed)
}

/// The dependency set of `a` given the call sites of its function, applied
/// in the order given.
pub fn dependencies_from_sites(
    a: Local,
    data_deps: &DataDeps,
    body: &Body,
    sites: &Vec<Location>,
    oracle: &Oracle,
) -> (r: HashSet<Local>)
    requires
        square(data_deps@),
        data_deps@.len() == body.local_count,
        body.wf(),
        a < body.local_count,
    ensures
        r@ == dependency_set(*body, data_deps@, a, sites@, *oracle),
{
    let n = body.local_count;
    let mut visited = transitive_deps(data_deps, a);
    let ghost reach = reach_set(data_deps@, a);
    let mut i: usize = 0;
    while i < sites.len()
        invariant
            body.wf(),
            n == body.local_count,
            visited@.len() == n,
            i <= sites@.len(),
            marked(visited@) == apply_calls(*body, reach, sites@.subrange(0, i as int), *oracle),
        decreases sites@.len() - i,
    {
        proof {
            assert(sites@.subrange(0, i + 1).drop_last() =~= sites@.subrange(0, i as int));
        }
        let ghost before = marked(visited@);
        let loc = sites[i];
        if loc.block < body.blocks.len() {
            match &body.blocks[loc.block].terminator {
                Terminator::Call { func, args, destination, .. } => {
                    assert(crate::mir::terminator_in(body.blocks@[loc.block as int].terminator, n as nat));
                    let dest = destination.local;
                    if args.len() == 1 {
                        if let Some(x) = args[0].local() {
                            assert(crate::mir::operand_in(args@[0], n as nat));
                            if visited[x] {
                                visited.set(dest, true);
                            }
                        }
                    }
                    let ghost mid = marked(visited@);
                    assert(mid =~= if args@.len() == 1 && first_arg_in(args@, before) {
                        before.insert(dest)
                    } else {
                        before
                    });
                    if args.len() >= 1 && oracle.is_privileged(*func) {
                        if let Some(x) = args[0].local() {
                            assert(crate::mir::operand_in(args@[0], n as nat));
                            if visited[x] {
                                visited.set(dest, true);
                            }
                        }
                    }
                    assert(marked(visited@) =~= if oracle.spec_privileged(*func) && first_arg_in(
                        args@,
                        mid,
                    ) {
                        mid.insert(dest)
                    } else {
                        mid
                    });
                },
                _ => {},
            }
        }
        i = i + 1;
    }
    proof {
        assert(sites@.subrange(0, sites@.len() as int) =~= sites@);
    }
    let mut r: HashSet<Local> = HashSet::new();
    let mut v: usize = 0;
    while v < n
        invariant
            v <= n,
            visited@.len() == n,
            r@ == Set::new(|u: Local| u < v && visited@[u as int]),
        decreases n - v,
    {
        if visited[v] {
            r.insert(v);
        }
        v = v + 1;
        assert(r@ =~= Set::new(|u: Local| u < v && visited@[u as int]));
    }
    r.insert(a);
    assert(Set::new(|u: Local| u < v && visited@[u as int]) =~= marked(visited@));
    r
}

/// An internal inconsistency between the call graph and the body.
#[derive(Clone, Copy, Debug, PartialEq, Eq, Structural)]
pub enum DepError {
    /// The edge to `callee` has no located call site.
    MissingCallSites { callee: InstanceId },
    /// A call site names a block that the body does not have.
    UnresolvedCallSite { block: usize },
}

/// Some located call site on an edge leaving `inst` names a block at or past `nblocks`.
pub open spec fn unresolved_site(
    es: Seq<(usize, usize, Seq<crate::callgraph::RawSite>)>,
    inst: usize,
    nblocks: nat,
) -> bool {
    exists|j: int, k: int|
        0 <= j < es.len() && (#[trigger] es[j]).0 == inst && 0 <= k < located(es[j].2).len()
            && (#[trigger] located(es[j].2)[k]).block >= nblocks
}

/// `l` is a located call site of an edge leaving `inst`.
pub open spec fn site_of(
    es: Seq<(usize, usize, Seq<crate::callgraph::RawSite>)>,
    inst: usize,
    l: Location,
) -> bool {
    exists|j: int, k: int|
        0 <= j < es.len() && (#[trigger] es[j]).0 == inst && 0 <= k < located(es[j].2).len()
            && #[trigger] located(es[j].2)[k] == l
}

/// `sites` holds the located call sites of the edges leaving `inst`, and
/// nothing else.
pub open spec fn covers_sites(
    es: Seq<(usize, usize, Seq<crate::callgraph::RawSite>)>,
    inst: usize,
    sites: Seq<Location>,
) -> bool {
    &&& forall|q: int| 0 <= q < sites.len() ==> site_of(es, inst, #[trigger] sites[q])
    &&& forall|j: int, k: int|
        0 <= j < es.len() && (#[trigger] es[j]).0 == inst && 0 <= k < located(es[j].2).len()
            ==> sites.contains(#[trigger] located(es[j].2)[k])
}

/// Gathers the located call sites of every edge leaving `inst`, failing on
/// an edge without one or a site outside the body.
fn gather_sites(callgraph: &CallGraph, inst: InstanceId, nblocks: usize) -> (r: Result<
    Vec<Location>,
    DepError,
>)
    requires
        callgraph.wf(),
        inst < callgraph.instance_count(),
    ensures
        r is Ok <==> !missing_sites(callgraph.edges(), inst) && !unresolved_site(
            callgraph.edges(),
            inst,
            nblocks as nat,
        ),
        r matches Ok(sites) ==> covers_sites(callgraph.edges(), inst, sites@),
        r matches Err(DepError::MissingCallSites { callee }) ==> exists|j: int|
            0 <= j < callgraph.edges().len() && (#[trigger] callgraph.edges()[j]).0 == inst
                && callgraph.edges()[j].1 == callee && located(callgraph.edges()[j].2).len() == 0,
        r matches Err(DepError::UnresolvedCallSite { block }) ==> block >= nblocks && exists|
            j: int,
            k: int,
        |
            0 <= j < callgraph.edges().len() && (#[trigger] callgraph.edges()[j]).0 == inst && 0 <= k
                < located(callgraph.edges()[j].2).len() && (#[trigger] located(
                callgraph.edges()[j].2,
            )[k]).block == block,
{
    let ghost es = callgraph.edges();
    let call_targets = callgraph.callees(inst);
    let mut sites: Vec<Location> = Vec::new();
    let mut i: usize = 0;
    while i < call_targets.len()
        invariant
            callgraph.wf(),
            es == callgraph.edges(),
            inst < callgraph.instance_count(),
            i <= call_targets@.len(),
            forall|t: int|
                0 <= t < call_targets@.len() ==> has_pair(es, inst, #[trigger] call_targets@[t])
                    && call_targets@[t] < callgraph.instance_count(),
            forall|q: int| 0 <= q < sites@.len() ==> site_of(es, inst, #[trigger] sites@[q]),
            forall|j: int|
                0 <= j < es.len() && (#[trigger] es[j]).0 == inst && call_targets@.subrange(
                    0,
                    i as int,
                ).contains(es[j].1) ==> located(es[j].2).len() > 0 && forall|k: int|
                    0 <= k < located(es[j].2).len() ==> (#[trigger] located(es[j].2)[k]).block
                        < nblocks && sites@.contains(located(es[j].2)[k]),
        decreases call_targets@.len() - i,
    {
        let call_target = call_targets[i];
        let ghost jt = pair_index(es, inst, call_target);
        proof {
            assert(has_pair(es, inst, call_targets@[i as int]));
        }
        let locs = match callsite_locations(callgraph, inst, call_target) {
            Some(locs) => locs,
            None => {
                return Err(DepError::MissingCallSites { callee: call_target });
            },
        };
        if locs.len() == 0 {
            assert(located(es[jt].2).len() == 0);
            return Err(DepError::MissingCallSites { callee: call_target });
        }
        let ghost sites0 = sites@;
        let mut k: usize = 0;
        while k < locs.len()
            invariant
                es == callgraph.edges(),
                0 <= jt < es.len(),
                es[jt].0 == inst,
                locs@ == located(es[jt].2),
                k <= locs@.len(),
                sites@.len() >= sites0.len(),
                forall|q: int| 0 <= q < sites0.len() ==> sites@[q] == sites0[q],
                forall|q: int| 0 <= q < sites@.len() ==> site_of(es, inst, #[trigger] sites@[q]),
                forall|k2: int|
                    0 <= k2 < k ==> locs@[k2].block < nblocks && sites@.contains(#[trigger] locs@[k2]),
            decreases locs@.len() - k,
        {
            let loc = locs[k];
            if loc.block >= nblocks {
                assert(located(es[jt].2)[k as int].block == loc.block);
                assert(unresolved_site(es, inst, nblocks as nat));
                return Err(DepError::UnresolvedCallSite { block: loc.block });
            }
            let ghost s1 = sites@;
            sites.push(loc);
            proof {
                assert(sites@[sites@.len() - 1] == loc);
                assert forall|k2: int| 0 <= k2 < k + 1 implies locs@[k2].block < nblocks
                    && sites@.contains(#[trigger] locs@[k2]) by {
                    if k2 < k {
                        let q = choose|q: int| 0 <= q < s1.len() && s1[q] == locs@[k2];
                        assert(sites@[q] == locs@[k2]);
                    }
                }
                assert forall|q: int| 0 <= q < sites@.len() implies site_of(es, inst, #[trigger] sites@[q]) by {
                    if q < s1.len() {
                        assert(sites@[q] == s1[q]);
                    } else {
                        assert(sites@[q] == located(es[jt].2)[k as int]);
                        assert(es[jt].0 == inst);
                    }
                }
            }
            k = k + 1;
        }
        proof {
            assert forall|j: int|
                0 <= j < es.len() && (#[trigger] es[j]).0 == inst && call_targets@.subrange(
                    0,
                    i + 1,
                ).contains(es[j].1) implies located(es[j].2).len() > 0 && forall|k2: int|
                0 <= k2 < located(es[j].2).len() ==> (#[trigger] located(es[j].2)[k2]).block
                    < nblocks && sites@.contains(located(es[j].2)[k2]) by {
                let t = choose|t: int| 0 <= t < i + 1 && #[trigger] call_targets@.subrange(0, i + 1)[t] == es[j].1;
                callgraph.lemma_pair_index(j);
                if t < i {
                    assert(call_targets@.subrange(0, i as int)[t] == es[j].1);
                    assert forall|k2: int| 0 <= k2 < located(es[j].2).len() implies (
                        #[trigger] located(es[j].2)[k2]).block < nblocks && sites@.contains(
                        located(es[j].2)[k2],
                    ) by {
                        let q = choose|q: int| 0 <= q < sites0.len() && sites0[q] == located(es[j].2)[k2];
                        assert(sites@[q] == sites0[q]);
                    }
                } else {
                    assert(j == jt);
                    assert forall|k2: int| 0 <= k2 < located(es[j].2).len() implies (
                        #[trigger] located(es[j].2)[k2]).block < nblocks && sites@.contains(
                        located(es[j].2)[k2],
                    ) by {
                        assert(locs@[k2] == located(es[j].2)[k2]);
                    }
                }
            }
        }
        i = i + 1;
    }
    proof {
        assert(call_targets@.subrange(0, i as int) =~= call_targets@);
        assert forall|j: int, k: int|
            0 <= j < es.len() && (#[trigger] es[j]).0 == inst && 0 <= k < located(es[j].2).len()
                implies sites@.contains(#[trigger] located(es[j].2)[k]) && located(es[j].2)[k].block < nblocks by {
            assert(call_targets@.contains(es[j].1));
        }
        assert(!missing_sites(es, inst)) by {
            assert forall|j: int| 0 <= j < es.len() && (#[trigger] es[j]).0 == inst implies located(
                es[j].2,
            ).len() != 0 by {
                assert(call_targets@.contains(es[j].1));
            }
        }
    }
    Ok(sites)
}

/// The dependency set of local `a` of the function `instance_id`: the locals
/// reached from `a` along one-hop edges, then widened by every located call
/// site of every call-graph edge leaving the function, and `a` itself.
/// Fails where an edge has no located call site or a site lies outside the
/// body.
pub fn all_data_dep_on(
    a: Local,
    data_deps: &DataDeps,
    callgraph: &CallGraph,
    instance_id: InstanceId,
    body: &Body,
    oracle: &Oracle,
) -> (r: Result<HashSet<Local>, DepError>)
    requires
        square(data_deps@),
        data_deps@.len() == body.local_count,
        body.wf(),
        a < body.local_count,
        callgraph.wf(),
        instance_id < callgraph.instance_count(),
    ensures
        r is Ok <==> !missing_sites(callgraph.edges(), instance_id) && !unresolved_site(
            callgraph.edges(),
            instance_id,
            body.blocks@.len(),
        ),
        r matches Ok(set) ==> set@.contains(a) && exists|sites: Seq<Location>|
            covers_sites(callgraph.edges(), instance_id, sites) && set@ == dependency_set(
                *body,
                data_deps@,
                a,
                sites,
                *oracle,
            ),
        r matches Err(DepError::MissingCallSites { callee }) ==> exists|j: int|
            0 <= j < callgraph.edges().len() && (#[trigger] callgraph.edges()[j]).0 == instance_id
                && callgraph.edges()[j].1 == callee && located(callgraph.edges()[j].2).len() == 0,
        r matches Err(DepError::UnresolvedCallSite { block }) ==> block >= body.blocks@.len()
            && exists|j: int, k: int|
            0 <= j < callgraph.edges().len() && (#[trigger] callgraph.edges()[j]).0 == instance_id
                && 0 <= k < located(callgraph.edges()[j].2).len() && (#[trigger] located(
                callgraph.edges()[j].2,
            )[k]).block == block,
{
    let sites = gather_sites(callgraph, instance_id, body.blocks.len())?;
    let set = dependencies_from_sites(a, data_deps, body, &sites, oracle);
    assert(covers_sites(callgraph.edges(), instance_id, sites@));
    Ok(set)
}

} // verus!
