//! The kinds of vertices of the dependency graph.
use vstd::prelude::*;

verus! {

#[derive(Clone, Copy, Debug, PartialEq, Eq, Structural)]
pub enum VertexKind {
    Empty,
    Cell,
    FormulaScalar,
    FormulaArray,
    NamedScalar,
    NamedArray,
    Range,
    InfiniteRange,
    External,
    Table,
}

pub open spec fn is_formula(kind: VertexKind) -> bool {
    kind == VertexKind::FormulaScalar || kind == VertexKind::FormulaArray
}

impl VertexKind {
    pub fn formula(self) -> (b: bool)
        ensures
            b == is_formula(self),
    {
        self == VertexKind::FormulaScalar || self == VertexKind::FormulaArray
    }
}

} // verus!
