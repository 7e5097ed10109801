//! The two error phases of the engine: parse errors (compile time) and
//! render errors (render time). Each error is structured data describing
//! exactly what went wrong; turning one into human-readable text is left to
//! the caller.

use vstd::prelude::*;
use vstd::string::*;

verus! {

/// The mathematical model of a parse error.
pub enum ParseErrorModel {
    /// A `{` that opens no recognized tag.
    UnexpectedCharacter,
    /// A tag whose closer was not found before the end of its line.
    UnclosedTag { closer: Seq<char> },
    /// Trailing text in a block that expects none (`else`, `endif`, ...).
    UnexpectedText { text: Seq<char> },
    /// An unrecognized block discriminant.
    UnknownBlock { name: Seq<char> },
    /// An `endif` or `else` with no matching open `if`.
    MismatchedEndIf,
    /// An `endwith` with no matching open `with`.
    MismatchedEndWith,
    /// An `endfor` with no matching open `for`.
    MismatchedEndFor,
    /// A path beginning with `@` that is not the reserved `@index`.
    InvalidKeyword { keyword: Seq<char> },
    /// A `for` block without the ` in ` keyword.
    MalformedFor { text: Seq<char> },
    /// A `call` block without the ` with ` keyword.
    MalformedCall { text: Seq<char> },
    /// An `if`, `with` or `for` block still open when the text ends: its
    /// forward jump target could never be resolved.
    UnclosedBlock,
    /// A block marker that does not address a patchable instruction; the
    /// compiler never produces one, but the error is total rather than fatal.
    Internal,
}

/// An error raised while compiling template source text.
#[derive(Debug, PartialEq, Eq, Clone)]
pub enum ParseError {
    UnexpectedCharacter,
    UnclosedTag { closer: String },
    UnexpectedText { text: String },
    UnknownBlock { name: String },
    MismatchedEndIf,
    MismatchedEndWith,
    MismatchedEndFor,
    InvalidKeyword { keyword: String },
    MalformedFor { text: String },
    MalformedCall { text: String },
    UnclosedBlock,
    Internal,
}

impl View for ParseError {
    type V = ParseErrorModel;

    open spec fn view(&self) -> ParseErrorModel {
        match self {
            ParseError::UnexpectedCharacter => ParseErrorModel::UnexpectedCharacter,
            ParseError::UnclosedTag { closer } => ParseErrorModel::UnclosedTag { closer: closer@ },
            ParseError::UnexpectedText { text } => ParseErrorModel::UnexpectedText { text: text@ },
            ParseError::UnknownBlock { name } => ParseErrorModel::UnknownBlock { name: name@ },
            ParseError::MismatchedEndIf => ParseErrorModel::MismatchedEndIf,
            ParseError::MismatchedEndWith => ParseErrorModel::MismatchedEndWith,
            ParseError::MismatchedEndFor => ParseErrorModel::MismatchedEndFor,
            ParseError::InvalidKeyword { keyword } => ParseErrorModel::InvalidKeyword {
                keyword: keyword@,
            },
            ParseError::MalformedFor { text } => ParseErrorModel::MalformedFor { text: text@ },
            ParseError::MalformedCall { text } => ParseErrorModel::MalformedCall { text: text@ },
            ParseError::UnclosedBlock => ParseErrorModel::UnclosedBlock,
            ParseError::Internal => ParseErrorModel::Internal,
        }
    }
}

/// The mathematical model of a render error.
pub enum RenderErrorModel {
    /// A path step that did not resolve; `available` holds the keys present
    /// at the failing level when that level was an object.
    Lookup { step: Seq<char>, path: Seq<Seq<char>>, available: Option<Seq<Seq<char>>> },
    /// A conditional evaluated on a value with no truthiness (an object).
    NotTruthy { path: Seq<Seq<char>> },
    /// An array or object where a printable value is required.
    Unprintable,
    /// A `for` target that is not an array.
    NotIterable { path: Seq<Seq<char>> },
    /// A formatter name absent from the formatter registry.
    UnknownFormatter { name: Seq<char> },
    /// A template name absent from the template registry.
    UnknownTemplate { name: Seq<char> },
    /// `@index` used outside of any iteration.
    IndexOutsideLoop,
    /// The rendering step budget was exhausted (only a non-terminating
    /// program can realistically reach this).
    StepLimit,
    /// An internal invariant of the program was violated; the compiler never
    /// produces such a program, but the renderer is total rather than fatal.
    Internal,
}

/// An error raised while rendering a compiled template.
#[derive(Debug, PartialEq, Eq, Clone)]
pub enum RenderError {
    Lookup { step: String, path: Vec<String>, available: Option<Vec<String>> },
    NotTruthy { path: Vec<String> },
    Unprintable,
    NotIterable { path: Vec<String> },
    UnknownFormatter { name: String },
    UnknownTemplate { name: String },
    IndexOutsideLoop,
    StepLimit,
    Internal,
}

/// The views of a sequence of owned strings.
pub open spec fn strings_view(parts: Seq<String>) -> Seq<Seq<char>> {
    parts.map_values(|s: String| s@)
}

impl View for RenderError {
    type V = RenderErrorModel;

    open spec fn view(&self) -> RenderErrorModel {
        match self {
            RenderError::Lookup { step, path, available } => RenderErrorModel::Lookup {
                step: step@,
                path: strings_view(path@),
                available: match available {
                    Some(keys) => Some(strings_view(keys@)),
                    None => None,
                },
            },
            RenderError::NotTruthy { path } => RenderErrorModel::NotTruthy {
                path: strings_view(path@),
            },
            RenderError::Unprintable => RenderErrorModel::Unprintable,
            RenderError::NotIterable { path } => RenderErrorModel::NotIterable {
                path: strings_view(path@),
            },
            RenderError::UnknownFormatter { name } => RenderErrorModel::UnknownFormatter {
                name: name@,
            },
            RenderError::UnknownTemplate { name } => RenderErrorModel::UnknownTemplate {
                name: name@,
            },
            RenderError::IndexOutsideLoop => RenderErrorModel::IndexOutsideLoop,
            RenderError::StepLimit => RenderErrorModel::StepLimit,
            RenderError::Internal => RenderErrorModel::Internal,
        }
    }
}

/// The parts joined with the separator between consecutive parts, starting
/// at index `from`.
pub open spec fn join_from(parts: Seq<Seq<char>>, sep: Seq<char>, from: int) -> Seq<char>
    decreases parts.len() - from,
{
    if from < 0 || from >= parts.len() {
        Seq::<char>::empty()
    } else if from == parts.len() - 1 {
        parts[from]
    } else {
        parts[from] + sep + join_from(parts, sep, from + 1)
    }
}

/// The parts joined with the separator between consecutive parts.
pub open spec fn join_spec(parts: Seq<Seq<char>>, sep: Seq<char>) -> Seq<char> {
    join_from(parts, sep, 0)
}

fn append_join(out: &mut String, parts: &Vec<String>, sep: &str, from: usize)
    ensures
        final(out)@ == old(out)@ + join_from(strings_view(parts@), sep@, from as int),
    decreases parts@.len() - from,
{
    let n = parts.len();
    if from >= n {
        proof {
            assert(old(out)@ + join_from(strings_view(parts@), sep@, from as int) =~= old(out)@);
        }
    } else if from == n - 1 {
        out.append(parts[from].as_str());
    } else {
        out.append(parts[from].as_str());
        out.append(sep);
        append_join(out, parts, sep, from + 1);
        proof {
            assert(old(out)@ + parts@[from as int]@ + sep@ + join_from(
                strings_view(parts@),
                sep@,
                from as int + 1,
            ) =~= old(out)@ + join_from(strings_view(parts@), sep@, from as int));
        }
    }
}

/// The dotted text of a path, for diagnostics: the segments joined by `.`.
pub fn path_to_str(path: &Vec<String>) -> (r: String)
    ensures
        r@ == join_spec(strings_view(path@), seq!['.']),
{
    let mut out = String::new();
    proof {
        reveal_strlit(".");
        assert("."@ =~= seq!['.']);
    }
    append_join(&mut out, path, ".", 0);
    proof {
        assert(Seq::<char>::empty() + join_spec(strings_view(path@), seq!['.']) =~= join_spec(
            strings_view(path@),
            seq!['.'],
        ));
    }
    out
}

} // verus!
