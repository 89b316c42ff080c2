//! A small model of a function body: basic blocks of statements ending in a
//! terminator, with locals identified by dense integer ids.

use vstd::prelude::*;

verus! {

/// A function-scoped variable slot.
pub type Local = usize;

/// Identity of a callee definition, as the oracle classifies it.
pub type DefId = u64;

/// A point in a body: the statement (or terminator, at index
/// `statements.len()`) of a basic block.
#[derive(Clone, Copy, Debug, PartialEq, Eq, Structural)]
pub struct Location {
    pub block: usize,
    pub statement_index: usize,
}

/// One step of a projection from a local into a part of it.
#[derive(Clone, Copy, Debug, PartialEq, Eq, Structural)]
pub enum ProjectionElem {
    Deref,
    Field(usize),
    Index(Local),
}

/// A storage location: a local, possibly projected into. The analysis is
/// field-insensitive and only ever reads the root local.
#[derive(Clone, Debug)]
pub struct Place {
    pub local: Local,
    pub projection: Vec<ProjectionElem>,
}

#[derive(Clone, Debug)]
pub enum Operand {
    Copy(Place),
    Move(Place),
    Constant(u128),
}

/// Right-hand side of an assignment. `Use`, `Cast`, `UnaryOp`, `BinaryOp`
/// and `CheckedBinaryOp` carry dependency; the other kinds do not.
#[derive(Clone, Debug)]
pub enum Rvalue {
    Use(Operand),
    Cast(Operand),
    UnaryOp(Operand),
    BinaryOp(Operand, Operand),
    CheckedBinaryOp(Operand, Operand),
    Ref(Place),
    Discriminant(Place),
    Aggregate(Vec<Operand>),
}

#[derive(Clone, Debug)]
pub enum Statement {
    Assign(Place, Rvalue),
    StorageLive(Local),
    StorageDead(Local),
    Nop,
}

/// What a call terminator calls.
#[derive(Clone, Copy, Debug, PartialEq, Eq, Structural)]
pub enum Callee {
    FnDef(DefId),
    Indirect,
}

#[derive(Clone, Debug)]
pub enum Terminator {
    Goto(usize),
    Return,
    Call { func: Callee, args: Vec<Operand>, destination: Place, target: Option<usize> },
}

#[derive(Clone, Debug)]
pub struct BasicBlockData {
    pub statements: Vec<Statement>,
    pub terminator: Terminator,
}

#[derive(Clone, Debug)]
pub struct Body {
    pub local_count: usize,
    pub blocks: Vec<BasicBlockData>,
}

impl Operand {
    /// The root local of the operand's place; constants have none.
    pub open spec fn spec_local(&self) -> Option<Local> {
        match self {
            Operand::Copy(p) => Some(p.local),
            Operand::Move(p) => Some(p.local),
            Operand::Constant(_) => None,
        }
    }

    pub fn local(&self) -> (r: Option<Local>)
        ensures
            r == self.spec_local(),
    {
        match self {
            Operand::Copy(p) => Some(p.local),
            Operand::Move(p) => Some(p.local),
            Operand::Constant(_) => None,
        }
    }
}

pub open spec fn operand_in(o: Operand, n: nat) -> bool {
    match o.spec_local() {
        Some(l) => l < n,
        None => true,
    }
}

/// `y` is computed in one step from `x` by `rv` (a tracked kind whose
/// operand has root local `x`).
pub open spec fn rvalue_reads(rv: Rvalue, x: Local) -> bool {
    match rv {
        Rvalue::Use(o) => o.spec_local() == Some(x),
        Rvalue::Cast(o) => o.spec_local() == Some(x),
        Rvalue::UnaryOp(o) => o.spec_local() == Some(x),
        Rvalue::BinaryOp(o0, o1) => o0.spec_local() == Some(x) || o1.spec_local() == Some(x),
        Rvalue::CheckedBinaryOp(o0, o1) => o0.spec_local() == Some(x) || o1.spec_local() == Some(
            x,
        ),
        _ => false,
    }
}

pub open spec fn rvalue_in(rv: Rvalue, n: nat) -> bool {
    match rv {
        Rvalue::Use(o) => operand_in(o, n),
        Rvalue::Cast(o) => operand_in(o, n),
        Rvalue::UnaryOp(o) => operand_in(o, n),
        Rvalue::BinaryOp(o0, o1) => operand_in(o0, n) && operand_in(o1, n),
        Rvalue::CheckedBinaryOp(o0, o1) => operand_in(o0, n) && operand_in(o1, n),
        _ => true,
    }
}

/// The statement adds the edge `x -> y`.
pub open spec fn stmt_edge(st: Statement, x: Local, y: Local) -> bool {
    match st {
        Statement::Assign(p, rv) => p.local == y && rvalue_reads(rv, x),
        _ => false,
    }
}

pub open spec fn stmt_in(st: Statement, n: nat) -> bool {
    match st {
        Statement::Assign(p, rv) => p.local < n && rvalue_in(rv, n),
        _ => true,
    }
}

pub open spec fn terminator_in(t: Terminator, n: nat) -> bool {
    match t {
        Terminator::Call { func, args, destination, target } => destination.local < n && forall|
            i: int,
        |
            0 <= i < args@.len() ==> operand_in(#[trigger] args@[i], n),
        _ => true,
    }
}

impl Body {
    /// Every local that the analysis reads is declared.
    pub open spec fn wf(&self) -> bool {
        &&& forall|b: int, i: int|
            0 <= b < self.blocks@.len() && 0 <= i < self.blocks@[b].statements@.len() ==> stmt_in(
                #[trigger] self.blocks@[b].statements@[i],
                self.local_count as nat,
            )
        &&& forall|b: int|
            0 <= b < self.blocks@.len() ==> terminator_in(
                #[trigger] self.blocks@[b].terminator,
                self.local_count as nat,
            )
    }

    /// Some assignment statement of the body computes `y` from `x`.
    pub open spec fn has_edge(&self, x: Local, y: Local) -> bool {
        exists|b: int, i: int|
            0 <= b < self.blocks@.len() && 0 <= i < self.blocks@[b].statements@.len()
                && stmt_edge(#[trigger] self.blocks@[b].statements@[i], x, y)
    }
}

} // verus!
