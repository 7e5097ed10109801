//! The closed instruction set the compiler emits and the renderer executes.
//! A compiled program is a flat sequence of these; every jump target is an
//! absolute instruction index.

use vstd::prelude::*;
use vstd::string::*;

use crate::error::strings_view;

verus! {

/// A dotted-name path: the ordered segments of e.g. `foo.bar`.
pub type Path = Vec<String>;

/// One node of a compiled program.
#[derive(Debug, PartialEq, Eq)]
pub enum Instruction {
    /// Emit fixed text verbatim.
    Literal(String),
    /// Look up the path and emit the value as primitive text.
    Value(Path),
    /// Look up the path, pass the value through the named formatter, and
    /// emit the formatter's output.
    FormattedValue(Path, String),
    /// Evaluate the truthiness of the path: fall through when true, jump to
    /// the target when false.
    Branch(Path, usize),
    /// Push the value at the path as a new anonymous scope.
    PushContext(Path),
    /// Push the value at the path as a named scope; named scopes do not
    /// shadow outer scopes.
    PushNamedContext(Path, String),
    /// Begin iterating the array at the path, binding the loop variable.
    PushIterationContext(Path, String),
    /// Discard the innermost scope.
    PopContext,
    /// Advance the innermost iteration: fall through with the loop variable
    /// updated, or jump to the target when exhausted.
    Iterate(usize),
    /// Unconditional jump.
    Goto(usize),
    /// Render the named template with the value at the path as its root
    /// context, splicing its output inline.
    Call(String, Path),
}

/// The mathematical model of one instruction.
pub enum InstructionModel {
    Literal(Seq<char>),
    Value(Seq<Seq<char>>),
    FormattedValue(Seq<Seq<char>>, Seq<char>),
    Branch(Seq<Seq<char>>, int),
    PushContext(Seq<Seq<char>>),
    PushNamedContext(Seq<Seq<char>>, Seq<char>),
    PushIterationContext(Seq<Seq<char>>, Seq<char>),
    PopContext,
    Iterate(int),
    Goto(int),
    Call(Seq<char>, Seq<Seq<char>>),
}

impl View for Instruction {
    type V = InstructionModel;

    open spec fn view(&self) -> InstructionModel {
        match self {
            Instruction::Literal(text) => InstructionModel::Literal(text@),
            Instruction::Value(path) => InstructionModel::Value(strings_view(path@)),
            Instruction::FormattedValue(path, name) => InstructionModel::FormattedValue(
                strings_view(path@),
                name@,
            ),
            Instruction::Branch(path, target) => InstructionModel::Branch(
                strings_view(path@),
                *target as int,
            ),
            Instruction::PushContext(path) => InstructionModel::PushContext(strings_view(path@)),
            Instruction::PushNamedContext(path, name) => InstructionModel::PushNamedContext(
                strings_view(path@),
                name@,
            ),
            Instruction::PushIterationContext(path, name) => InstructionModel::PushIterationContext(
                strings_view(path@),
                name@,
            ),
            Instruction::PopContext => InstructionModel::PopContext,
            Instruction::Iterate(target) => InstructionModel::Iterate(*target as int),
            Instruction::Goto(target) => InstructionModel::Goto(*target as int),
            Instruction::Call(name, path) => InstructionModel::Call(name@, strings_view(path@)),
        }
    }
}

/// The models of a sequence of instructions.
pub open spec fn instructions_view(ins: Seq<Instruction>) -> Seq<InstructionModel> {
    ins.map_values(|i: Instruction| i@)
}

/// Copies a path segment by segment.
pub fn copy_path(p: &Path) -> (r: Path)
    ensures
        strings_view(r@) == strings_view(p@),
{
    let mut out: Vec<String> = Vec::new();
    let n = p.len();
    let mut i: usize = 0;
    while i < n
        invariant
            n == p@.len(),
            0 <= i <= n,
            out@.len() == i,
            forall|j: int| 0 <= j < i ==> (#[trigger] out@[j])@ == p@[j]@,
        decreases n - i,
    {
        out.push(p[i].clone());
        i = i + 1;
    }
    proof {
        assert(strings_view(out@) =~= strings_view(p@));
    }
    out
}

} // verus!
