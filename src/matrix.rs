//! The immediate-dependency matrix of one body: `m[x][y]` holds when `y` is
//! computed in one step from `x`.

use vstd::prelude::*;
use crate::mir::{Body, Local, Place, Rvalue, Statement, rvalue_in, rvalue_reads, stmt_edge};

verus! {

#[derive(Clone, Debug)]
pub struct DataDeps {
    immediate_deps: Vec<Vec<bool>>,
}

/// The one-hop edge `x -> y` of a matrix.
pub open spec fn edge(m: Seq<Seq<bool>>, x: Local, y: Local) -> bool {
    x < m.len() && y < m[x as int].len() && m[x as int][y as int]
}

/// `m` is square.
pub open spec fn square(m: Seq<Seq<bool>>) -> bool {
    forall|i: int| 0 <= i < m.len() ==> (#[trigger] m[i]).len() == m.len()
}

/// `m` is the immediate-dependency matrix of `body`.
pub open spec fn matrix_of(m: Seq<Seq<bool>>, body: Body) -> bool {
    &&& m.len() == body.local_count
    &&& square(m)
    &&& forall|x: Local, y: Local|
        edge(m, x, y) <==> (x < body.local_count && y < body.local_count && body.has_edge(x, y))
}

/// Some statement strictly before position `(b, i)` in block order adds `x -> y`.
pub open spec fn edge_before(body: Body, b: int, i: int, x: Local, y: Local) -> bool {
    exists|bb: int, ii: int|
        0 <= bb < body.blocks@.len() && 0 <= ii < body.blocks@[bb].statements@.len() && (bb < b
            || (bb == b && ii < i)) && stmt_edge(#[trigger] body.blocks@[bb].statements@[ii], x, y)
}

impl View for DataDeps {
    type V = Seq<Seq<bool>>;

    closed spec fn view(&self) -> Seq<Seq<bool>> {
        self.immediate_deps@.map_values(|r: Vec<bool>| r@)
    }
}

impl DataDeps {
    /// The matrix over `n` locals with no edge.
    pub fn new(n: usize) -> (r: DataDeps)
        ensures
            r@.len() == n,
            square(r@),
            forall|x: Local, y: Local| !edge(r@, x, y),
    {
        let mut rows: Vec<Vec<bool>> = Vec::new();
        let mut i: usize = 0;
        while i < n
            invariant
                i <= n,
                rows@.len() == i,
                forall|k: int| 0 <= k < i ==> (#[trigger] rows@[k])@ == Seq::new(n as nat, |j: int| false),
            decreases n - i,
        {
            let mut row: Vec<bool> = Vec::new();
            let mut j: usize = 0;
            while j < n
                invariant
                    j <= n,
                    row@ == Seq::new(j as nat, |k: int| false),
                decreases n - j,
            {
                row.push(false);
                j = j + 1;
                assert(row@ =~= Seq::new(j as nat, |k: int| false));
            }
            rows.push(row);
            i = i + 1;
        }
        DataDeps { immediate_deps: rows }
    }

    /// The number of locals the matrix ranges over.
    pub fn local_count(&self) -> (r: usize)
        ensures
            r == self@.len(),
    {
        self.immediate_deps.len()
    }

    /// Whether `y` is computed in one step from `x`.
    pub fn depends(&self, x: Local, y: Local) -> (r: bool)
        requires
            square(self@),
        ensures
            r == edge(self@, x, y),
    {
        if x < self.immediate_deps.len() && y < self.immediate_deps[x].len() {
            self.immediate_deps[x][y]
        } else {
            false
        }
    }

    fn set_edge(&mut self, x: Local, y: Local)
        requires
            square(old(self)@),
            x < old(self)@.len(),
            y < old(self)@.len(),
        ensures
            final(self)@.len() == old(self)@.len(),
            square(final(self)@),
            forall|u: Local, v: Local|
                edge(final(self)@, u, v) == (edge(old(self)@, u, v) || (u == x && v == y)),
    {
        let ghost n = self@.len();
        let mut row: Vec<bool> = Vec::new();
        std::mem::swap(&mut row, &mut self.immediate_deps[x]);
        assert(row@ == old(self)@[x as int]);
        row.set(y, true);
        self.immediate_deps.set(x, row);
        assert forall|i: int| 0 <= i < self@.len() implies (#[trigger] self@[i]).len() == self@.len() by {
            assert(old(self)@[i].len() == n);
        }
    }

    /// The locals computed in one step from `local`.
    pub fn immediate_dep(&self, local: Local) -> (r: Vec<Local>)
        requires
            square(self@),
            local < self@.len(),
        ensures
            forall|i: int| 0 <= i < r@.len() ==> edge(self@, local, #[trigger] r@[i]),
            forall|y: Local| edge(self@, local, y) ==> r@.contains(y),
    {
        let row = &self.immediate_deps[local];
        let mut r: Vec<Local> = Vec::new();
        let mut y: usize = 0;
        while y < row.len()
            invariant
                local < self@.len(),
                row@ == self@[local as int],
                y <= row@.len(),
                forall|i: int| 0 <= i < r@.len() ==> edge(self@, local, #[trigger] r@[i]),
                forall|z: Local| z < y && edge(self@, local, z) ==> r@.contains(z),
            decreases row@.len() - y,
        {
            let ghost prev = r@;
            if row[y] {
                r.push(y);
                assert(r@[r@.len() - 1] == y);
            }
            assert forall|z: Local| z < y + 1 && edge(self@, local, z) implies r@.contains(z) by {
                if z < y {
                    assert(prev.contains(z));
                    let k = choose|k: int| 0 <= k < prev.len() && prev[k] == z;
                    assert(r@[k] == z);
                }
            }
            y = y + 1;
        }
        r
    }

    /// Records the edges that the assignment `place = rvalue` adds: one from
    /// each place operand of a tracked kind into the root local of `place`.
    pub fn visit_assign(&mut self, place: &Place, rvalue: &Rvalue)
        requires
            square(old(self)@),
            place.local < old(self)@.len(),
            rvalue_in(*rvalue, old(self)@.len()),
        ensures
            final(self)@.len() == old(self)@.len(),
            square(final(self)@),
            forall|x: Local, y: Local|
                edge(final(self)@, x, y) == (edge(old(self)@, x, y) || (y == place.local
                    && rvalue_reads(*rvalue, x))),
    {
        let lhs = place.local;
        match rvalue {
            Rvalue::Use(operand) => {
                if let Some(rhs) = operand.local() {
                    self.set_edge(rhs, lhs);
                }
            },
            Rvalue::Cast(operand) => {
                if let Some(rhs) = operand.local() {
                    self.set_edge(rhs, lhs);
                }
            },
            Rvalue::UnaryOp(operand) => {
                if let Some(rhs) = operand.local() {
                    self.set_edge(rhs, lhs);
                }
            },
            Rvalue::BinaryOp(rhs0, rhs1) => {
                if let Some(rhs0) = rhs0.local() {
                    self.set_edge(rhs0, lhs);
                }
                if let Some(rhs1) = rhs1.local() {
                    self.set_edge(rhs1, lhs);
                }
            },
            Rvalue::CheckedBinaryOp(rhs0, rhs1) => {
                if let Some(rhs0) = rhs0.local() {
                    self.set_edge(rhs0, lhs);
                }
                if let Some(rhs1) = rhs1.local() {
                    self.set_edge(rhs1, lhs);
                }
            },
            _ => {},
        }
    }
}

/// Builds the immediate-dependency matrix of `body`: `x -> y` exactly when
/// some assignment of the body computes `y` from `x`.
pub fn data_deps(body: &Body) -> (r: DataDeps)
    requires
        body.wf(),
    ensures
        matrix_of(r@, *body),
{
    let n = body.local_count;
    let mut data_deps = DataDeps::new(n);
    let mut b: usize = 0;
    while b < body.blocks.len()
        invariant
            body.wf(),
            n == body.local_count,
            b <= body.blocks@.len(),
            data_deps@.len() == n,
            square(data_deps@),
            forall|x: Local, y: Local|
                edge(data_deps@, x, y) <==> edge_before(*body, b as int, 0, x, y),
        decreases body.blocks@.len() - b,
    {
        let stmts = &body.blocks[b].statements;
        let mut i: usize = 0;
        while i < stmts.len()
            invariant
                body.wf(),
                n == body.local_count,
                b < body.blocks@.len(),
                stmts@ == body.blocks@[b as int].statements@,
                i <= stmts@.len(),
                data_deps@.len() == n,
                square(data_deps@),
                forall|x: Local, y: Local|
                    edge(data_deps@, x, y) <==> edge_before(*body, b as int, i as int, x, y),
            decreases stmts@.len() - i,
        {
            let ghost before = data_deps@;
            match &stmts[i] {
                Statement::Assign(place, rvalue) => {
                    assert(crate::mir::stmt_in(body.blocks@[b as int].statements@[i as int], n as nat));
                    data_deps.visit_assign(place, rvalue);
                },
                _ => {},
            }
            assert forall|x: Local, y: Local|
                edge(data_deps@, x, y) <==> edge_before(*body, b as int, i + 1, x, y) by {
                if edge_before(*body, b as int, i + 1, x, y) {
                    let (bb, ii) = choose|bb: int, ii: int|
                        0 <= bb < body.blocks@.len() && 0 <= ii
                            < body.blocks@[bb].statements@.len() && (bb < b || (bb == b && ii < i
                            + 1)) && stmt_edge(#[trigger] body.blocks@[bb].statements@[ii], x, y);
                    if !(bb == b && ii == i) {
                        assert(edge_before(*body, b as int, i as int, x, y));
                    }
                }
                if edge_before(*body, b as int, i as int, x, y) {
                    let (bb, ii) = choose|bb: int, ii: int|
                        0 <= bb < body.blocks@.len() && 0 <= ii
                            < body.blocks@[bb].statements@.len() && (bb < b || (bb == b && ii < i))
                            && stmt_edge(#[trigger] body.blocks@[bb].statements@[ii], x, y);
                    assert(edge_before(*body, b as int, i + 1, x, y));
                }
                if edge(data_deps@, x, y) && !edge(before, x, y) {
                    assert(stmt_edge(body.blocks@[b as int].statements@[i as int], x, y));
                    assert(edge_before(*body, b as int, i + 1, x, y));
                }
            }
            i = i + 1;
        }
        assert forall|x: Local, y: Local|
            edge(data_deps@, x, y) <==> edge_before(*body, b + 1, 0, x, y) by {
            if edge_before(*body, b + 1, 0, x, y) {
                let (bb, ii) = choose|bb: int, ii: int|
                    0 <= bb < body.blocks@.len() && 0 <= ii < body.blocks@[bb].statements@.len()
                        && (bb < b + 1 || (bb == b + 1 && ii < 0)) && stmt_edge(
                        #[trigger] body.blocks@[bb].statements@[ii],
                        x,
                        y,
                    );
                assert(edge_before(*body, b as int, stmts@.len() as int, x, y));
            }
            if edge_before(*body, b as int, stmts@.len() as int, x, y) {
                let (bb, ii) = choose|bb: int, ii: int|
                    0 <= bb < body.blocks@.len() && 0 <= ii < body.blocks@[bb].statements@.len()
                        && (bb < b || (bb == b && ii < stmts@.len())) && stmt_edge(
                        #[trigger] body.blocks@[bb].statements@[ii],
                        x,
                        y,
                    );
                assert(edge_before(*body, b + 1, 0, x, y));
            }
        }
        b = b + 1;
    }
    assert forall|x: Local, y: Local|
        edge(data_deps@, x, y) <==> (x < n && y < n && body.has_edge(x, y)) by {
        if body.has_edge(x, y) {
            let (bb, ii) = choose|bb: int, ii: int|
                0 <= bb < body.blocks@.len() && 0 <= ii < body.blocks@[bb].statements@.len()
                    && stmt_edge(#[trigger] body.blocks@[bb].statements@[ii], x, y);
            assert(edge_before(*body, b as int, 0, x, y));
        }
        if edge_before(*body, b as int, 0, x, y) {
            let (bb, ii) = choose|bb: int, ii: int|
                0 <= bb < body.blocks@.len() && 0 <= ii < body.blocks@[bb].statements@.len() && (bb
                    < b || (bb == b && ii < 0)) && stmt_edge(
                    #[trigger] body.blocks@[bb].statements@[ii],
                    x,
                    y,
                );
            assert(body.has_edge(x, y));
        }
    }
    data_deps
}

} // verus!
