//! The renderer: a virtual machine that executes a compiled instruction
//! sequence against a runtime context stack, with a program counter, scoped
//! lookup, iteration bookkeeping, sub-template invocation and pluggable
//! formatting.
//!
//! The machine is specified by the fuel-indexed mathematical interpreter
//! [`spec_run`]; the executable renderer is proved to return exactly what
//! that function says. The fuel bounds the number of instruction steps (and
//! thereby the depth of template recursion, which the language does not
//! otherwise guard); it is so large that only a non-terminating program can
//! exhaust it.

use vstd::prelude::*;
use vstd::string::*;

use crate::error::{strings_view, RenderError, RenderErrorModel};
use crate::instruction::{instructions_view, Instruction, InstructionModel, Path};
use crate::num::{append_usize_dec, dec_str};
use crate::template::Template;
use crate::text::{starts_with_char, str_eq};
use crate::value::{
    has_truthiness, is_printable, object_keys, object_keys_exec, truthy, truthy_exec, value_get,
    value_get_exec, value_text, Value,
};

verus! {

/// The rendering step budget: only a non-terminating program (for instance a
/// template that calls itself) can realistically exhaust it.
pub const RENDER_FUEL: u64 = u64::MAX;

/// One entry of the renderer's context stack, innermost last. An anonymous
/// object scope resolves whole paths; a named scope resolves only paths that
/// begin with its name; an iteration scope binds the loop variable to the
/// current element of the array it walks and exposes `@index`.
pub enum ContextElement<'render> {
    Object(&'render Value),
    Named(String, &'render Value),
    Iteration(String, &'render Vec<Value>, usize),
}

/// The mathematical model of one context-stack entry. An iteration scope
/// holds the elements being walked and the count of elements consumed so
/// far: the current element is `elems[pos - 1]` once iteration has begun.
pub enum ScopeModel {
    Object(Value),
    Named(Seq<char>, Value),
    Iteration { name: Seq<char>, elems: Seq<Value>, pos: int },
}

impl<'render> View for ContextElement<'render> {
    type V = ScopeModel;

    open spec fn view(&self) -> ScopeModel {
        match self {
            ContextElement::Object(v) => ScopeModel::Object(**v),
            ContextElement::Named(name, v) => ScopeModel::Named(name@, **v),
            ContextElement::Iteration(name, elems, pos) => ScopeModel::Iteration {
                name: name@,
                elems: elems@,
                pos: *pos as int,
            },
        }
    }
}

pub open spec fn scopes_view<'render>(s: Seq<ContextElement<'render>>) -> Seq<ScopeModel> {
    s.map_values(|e: ContextElement<'render>| e@)
}

/// The registry of named compiled templates that `call` resolves against.
/// Later insertions of the same name override earlier ones.
pub struct TemplateRegistry {
    entries: Vec<(String, Template)>,
}

/// The mapping an entry list denotes: each entry inserted in order.
pub open spec fn registry_map(entries: Seq<(String, Template)>) -> Map<
    Seq<char>,
    Seq<InstructionModel>,
>
    decreases entries.len(),
{
    if entries.len() == 0 {
        Map::empty()
    } else {
        registry_map(entries.drop_last()).insert(entries.last().0@, entries.last().1@)
    }
}

proof fn lemma_registry_map_no_match(entries: Seq<(String, Template)>, name: Seq<char>, i: int)
    requires
        0 <= i <= entries.len(),
        forall|j: int| i <= j < entries.len() ==> (#[trigger] entries[j]).0@ != name,
    ensures
        registry_map(entries).contains_key(name) == registry_map(entries.take(i)).contains_key(
            name,
        ),
        registry_map(entries).contains_key(name) ==> registry_map(entries)[name] == registry_map(
            entries.take(i),
        )[name],
    decreases entries.len(),
{
    if i == entries.len() {
        assert(entries.take(i) =~= entries);
    } else {
        assert(entries.drop_last().take(i) =~= entries.take(i));
        lemma_registry_map_no_match(entries.drop_last(), name, i);
    }
}

impl View for TemplateRegistry {
    type V = Map<Seq<char>, Seq<InstructionModel>>;

    closed spec fn view(&self) -> Map<Seq<char>, Seq<InstructionModel>> {
        registry_map(self.entries@)
    }
}

impl TemplateRegistry {
    /// An empty registry.
    pub fn new() -> (r: TemplateRegistry)
        ensures
            r@ == Map::<Seq<char>, Seq<InstructionModel>>::empty(),
    {
        TemplateRegistry { entries: Vec::new() }
    }

    /// Registers a compiled template under a name, overriding any earlier
    /// template of that name.
    pub fn insert(&mut self, name: &str, template: Template)
        ensures
            final(self)@ == old(self)@.insert(name@, template@),
    {
        let ghost prev = self.entries@;
        self.entries.push((name.to_owned(), template));
        proof {
            assert(self.entries@.drop_last() =~= prev);
        }
    }

    /// Looks a template up by name.
    pub fn get(&self, name: &str) -> (r: Option<&Template>)
        ensures
            match r {
                Some(t) => self@.contains_key(name@) && self@[name@] == t@,
                None => !self@.contains_key(name@),
            },
    {
        let n = self.entries.len();
        let mut i: usize = n;
        while i > 0
            invariant
                n == self.entries@.len(),
                0 <= i <= n,
                forall|j: int| i <= j < n ==> (#[trigger] self.entries@[j]).0@ != name@,
            decreases i,
        {
            if str_eq(self.entries[i - 1].0.as_str(), name) {
                proof {
                    lemma_registry_map_no_match(self.entries@, name@, i as int);
                    assert(self.entries@.take(i as int).drop_last() =~= self.entries@.take(
                        i as int - 1,
                    ));
                    assert(self.entries@.take(i as int).last() == self.entries@[i as int - 1]);
                }
                return Some(&self.entries[i - 1].1);
            }
            i = i - 1;
        }
        proof {
            lemma_registry_map_no_match(self.entries@, name@, 0);
            assert(self.entries@.take(0) =~= Seq::<(String, Template)>::empty());
        }
        None
    }
}

/// One pluggable formatter: a capability to turn a value into text,
/// fallibly. An implementation declares its own specification and its
/// executable code is verified against it.
pub trait ValueFormatter: Sized {
    /// What the formatter produces for each value.
    spec fn spec_apply(&self, v: Value) -> Result<Seq<char>, RenderErrorModel>;

    /// Formats one value.
    fn apply(&self, v: &Value) -> (r: Result<String, RenderError>)
        ensures
            match r {
                Ok(s) => self.spec_apply(*v) == Ok::<_, RenderErrorModel>(s@),
                Err(e) => self.spec_apply(*v) == Err::<Seq<char>, _>(e@),
            },
    ;
}

/// The default formatter: emits a printable value's canonical text, exactly
/// as a plain `{{ path }}` tag would.
pub struct PlainFormatter;

impl ValueFormatter for PlainFormatter {
    open spec fn spec_apply(&self, v: Value) -> Result<Seq<char>, RenderErrorModel> {
        if is_printable(v) {
            Ok(value_text(v))
        } else {
            Err(RenderErrorModel::Unprintable)
        }
    }

    fn apply(&self, v: &Value) -> (r: Result<String, RenderError>) {
        let mut out = String::new();
        match crate::value::format(v, &mut out) {
            Ok(_) => Ok(out),
            Err(e) => Err(e),
        }
    }
}

/// A formatter that wraps the canonical text of a printable value between a
/// fixed prefix and suffix.
pub struct WrapFormatter {
    pub prefix: String,
    pub suffix: String,
}

impl ValueFormatter for WrapFormatter {
    open spec fn spec_apply(&self, v: Value) -> Result<Seq<char>, RenderErrorModel> {
        if is_printable(v) {
            Ok(self.prefix@ + value_text(v) + self.suffix@)
        } else {
            Err(RenderErrorModel::Unprintable)
        }
    }

    fn apply(&self, v: &Value) -> (r: Result<String, RenderError>) {
        let mut out = String::new();
        out.append(self.prefix.as_str());
        match crate::value::format(v, &mut out) {
            Ok(_) => {
                out.append(self.suffix.as_str());
                Ok(out)
            },
            Err(e) => Err(e),
        }
    }
}

/// The registry of named formatters that `{{ path | name }}` resolves
/// against. Later insertions of the same name override earlier ones.
pub struct FormatterRegistry<F: ValueFormatter> {
    entries: Vec<(String, F)>,
}

/// The first entry whose key equals `name`, if any.
pub open spec fn fmt_find<F: ValueFormatter>(entries: Seq<(String, F)>, name: Seq<char>) -> Option<
    F,
>
    decreases entries.len(),
{
    if entries.len() == 0 {
        None
    } else if entries[0].0@ == name {
        Some(entries[0].1)
    } else {
        fmt_find(entries.drop_first(), name)
    }
}

proof fn lemma_fmt_find_skip<F: ValueFormatter>(entries: Seq<(String, F)>, name: Seq<char>, i: int)
    requires
        0 <= i <= entries.len(),
        forall|j: int| 0 <= j < i ==> (#[trigger] entries[j]).0@ != name,
    ensures
        fmt_find(entries, name) == fmt_find(entries.skip(i), name),
    decreases i,
{
    if i == 0 {
        assert(entries.skip(0) =~= entries);
    } else {
        lemma_fmt_find_skip(entries.drop_first(), name, i - 1);
        assert(entries.drop_first().skip(i - 1) =~= entries.skip(i));
    }
}

impl<F: ValueFormatter> FormatterRegistry<F> {
    /// The formatter registered under the name, if any.
    pub closed spec fn spec_find(&self, name: Seq<char>) -> Option<F> {
        fmt_find(self.entries@, name)
    }

    /// Whether a formatter is registered under the name.
    pub open spec fn has(&self, name: Seq<char>) -> bool {
        self.spec_find(name) is Some
    }

    /// What the formatter registered under the name produces for a value.
    pub open spec fn spec_format(&self, name: Seq<char>, v: Value) -> Result<
        Seq<char>,
        RenderErrorModel,
    > {
        self.spec_find(name)->Some_0.spec_apply(v)
    }

    /// An empty registry.
    pub fn new() -> (r: FormatterRegistry<F>)
        ensures
            forall|name: Seq<char>| !r.has(name),
    {
        FormatterRegistry { entries: Vec::new() }
    }

    /// Registers a formatter under a name, overriding any earlier formatter
    /// of that name.
    pub fn insert(&mut self, name: &str, formatter: F)
        ensures
            forall|n: Seq<char>| #![auto]
                final(self).spec_find(n) == if n == name@ {
                    Some(formatter)
                } else {
                    old(self).spec_find(n)
                },
    {
        let ghost prev = self.entries@;
        self.entries.insert(0, (name.to_owned(), formatter));
        proof {
            assert(self.entries@.drop_first() =~= prev);
        }
    }

    /// Looks a formatter up by name.
    fn find(&self, name: &str) -> (r: Option<&F>)
        ensures
            match r {
                Some(f) => self.spec_find(name@) == Some(*f),
                None => self.spec_find(name@) is None,
            },
    {
        let n = self.entries.len();
        let mut i: usize = 0;
        while i < n
            invariant
                n == self.entries@.len(),
                0 <= i <= n,
                forall|j: int| 0 <= j < i ==> (#[trigger] self.entries@[j]).0@ != name@,
            decreases n - i,
        {
            if str_eq(self.entries[i].0.as_str(), name) {
                proof {
                    lemma_fmt_find_skip(self.entries@, name@, i as int);
                    assert(self.entries@.skip(i as int)[0] == self.entries@[i as int]);
                }
                return Some(&self.entries[i].1);
            }
            i = i + 1;
        }
        proof {
            lemma_fmt_find_skip(self.entries@, name@, n as int);
            assert(self.entries@.skip(n as int).len() == 0);
        }
        None
    }
}

/// The keys available at a value, for lookup diagnostics: the keys of an
/// object, nothing for anything else.
pub open spec fn avail_of(v: Value) -> Option<Seq<Seq<char>>> {
    match v {
        Value::Object(entries) => Some(object_keys(entries@)),
        _ => None,
    }
}

/// Structural lookup of the path suffix starting at `cur` within a value;
/// `base` marks where the suffix handed to this lookup began, for the
/// diagnostic payload of a failure.
pub open spec fn spec_lookup_in(v: Value, path: Seq<Seq<char>>, base: int, cur: int) -> Result<
    Value,
    RenderErrorModel,
>
    decreases path.len() - cur,
{
    if cur < 0 || cur >= path.len() {
        Ok(v)
    } else {
        match value_get(v, path[cur]) {
            Some(next) => spec_lookup_in(next, path, base, cur + 1),
            None => Err(
                RenderErrorModel::Lookup {
                    step: path[cur],
                    path: path.skip(base),
                    available: avail_of(v),
                },
            ),
        }
    }
}

/// Innermost-first search of the context stack. An anonymous object scope
/// always resolves the whole path and stops the search; a named or iteration
/// scope resolves only a path that begins with its bound name, and otherwise
/// lets the search continue outward. The stack is never legitimately empty,
/// and compiled paths are never empty.
pub open spec fn spec_lookup(stack: Seq<ScopeModel>, path: Seq<Seq<char>>) -> Result<
    Value,
    RenderErrorModel,
>
    decreases stack.len(),
{
    if path.len() == 0 || stack.len() == 0 {
        Err(RenderErrorModel::Internal)
    } else {
        match stack.last() {
            ScopeModel::Object(v) => spec_lookup_in(v, path, 0, 0),
            ScopeModel::Named(name, v) => if name == path[0] {
                spec_lookup_in(v, path, 1, 1)
            } else {
                spec_lookup(stack.drop_last(), path)
            },
            ScopeModel::Iteration { name, elems, pos } => if name == path[0] {
                if 1 <= pos <= elems.len() {
                    spec_lookup_in(elems[pos - 1], path, 1, 1)
                } else {
                    Err(RenderErrorModel::Internal)
                }
            } else {
                spec_lookup(stack.drop_last(), path)
            },
        }
    }
}

/// The value `@index` renders: the zero-based index of the innermost active
/// iteration. Before the first advance the count wraps, exactly as a
/// zero-based counter one step before zero does.
pub open spec fn spec_lookup_index(stack: Seq<ScopeModel>) -> Result<int, RenderErrorModel>
    decreases stack.len(),
{
    if stack.len() == 0 {
        Err(RenderErrorModel::IndexOutsideLoop)
    } else {
        match stack.last() {
            ScopeModel::Iteration { pos, .. } => Ok(
                if pos == 0 {
                    usize::MAX as int
                } else {
                    pos - 1
                },
            ),
            _ => spec_lookup_index(stack.drop_last()),
        }
    }
}

/// The complete outcome of a run: the output accumulated when it stopped
/// (all of it when the run completed, the partial output when it aborted),
/// the error that aborted it if any, and the fuel left over.
#[verifier::ext_equal]
pub struct RunResult {
    pub out: Seq<char>,
    pub err: Option<RenderErrorModel>,
    pub fuel: nat,
}

/// The fuel-indexed interpreter: executes the program from `pc` with the
/// given context stack, accumulated output and remaining fuel. Each
/// instruction step costs one unit of fuel; a `call` hands its remaining
/// fuel to the sub-template and continues with what that render left. An
/// aborting instruction appends nothing: the outcome's output is exactly
/// the text accumulated before the failure.
pub open spec fn spec_run<F: ValueFormatter>(
    tmpls: Map<Seq<char>, Seq<InstructionModel>>,
    fmts: FormatterRegistry<F>,
    prog: Seq<InstructionModel>,
    stack: Seq<ScopeModel>,
    pc: int,
    out: Seq<char>,
    fuel: nat,
) -> RunResult
    decreases fuel,
{
    if pc < 0 || pc >= prog.len() {
        RunResult { out, err: None, fuel }
    } else if fuel == 0 {
        RunResult { out, err: Some(RenderErrorModel::StepLimit), fuel: 0 }
    } else {
        let f2 = (fuel - 1) as nat;
        match prog[pc] {
            InstructionModel::Literal(text) => spec_run(
                tmpls,
                fmts,
                prog,
                stack,
                pc + 1,
                out + text,
                f2,
            ),
            InstructionModel::Value(path) => {
                if path.len() > 0 && path[0].len() > 0 && path[0][0] == '@' {
                    if path[0] == "@index"@ {
                        match spec_lookup_index(stack) {
                            Ok(i) => spec_run(tmpls, fmts, prog, stack, pc + 1, out + dec_str(
                                i as nat,
                            ), f2),
                            Err(e) => RunResult { out, err: Some(e), fuel: f2 },
                        }
                    } else {
                        RunResult { out, err: Some(RenderErrorModel::Internal), fuel: f2 }
                    }
                } else {
                    match spec_lookup(stack, path) {
                        Ok(v) => if is_printable(v) {
                            spec_run(tmpls, fmts, prog, stack, pc + 1, out + value_text(v), f2)
                        } else {
                            RunResult { out, err: Some(RenderErrorModel::Unprintable), fuel: f2 }
                        },
                        Err(e) => RunResult { out, err: Some(e), fuel: f2 },
                    }
                }
            },
            InstructionModel::FormattedValue(path, name) => {
                match spec_lookup(stack, path) {
                    Ok(v) => if fmts.has(name) {
                        match fmts.spec_format(name, v) {
                            Ok(text) => spec_run(tmpls, fmts, prog, stack, pc + 1, out + text, f2),
                            Err(e) => RunResult { out, err: Some(e), fuel: f2 },
                        }
                    } else {
                        RunResult {
                            out,
                            err: Some(RenderErrorModel::UnknownFormatter { name }),
                            fuel: f2,
                        }
                    },
                    Err(e) => RunResult { out, err: Some(e), fuel: f2 },
                }
            },
            InstructionModel::Branch(path, target) => {
                match spec_lookup(stack, path) {
                    Ok(v) => if !has_truthiness(v) {
                        RunResult { out, err: Some(RenderErrorModel::NotTruthy { path }), fuel: f2 }
                    } else if truthy(v) {
                        spec_run(tmpls, fmts, prog, stack, pc + 1, out, f2)
                    } else {
                        spec_run(tmpls, fmts, prog, stack, target, out, f2)
                    },
                    Err(e) => RunResult { out, err: Some(e), fuel: f2 },
                }
            },
            InstructionModel::PushContext(path) => {
                match spec_lookup(stack, path) {
                    Ok(v) => spec_run(
                        tmpls,
                        fmts,
                        prog,
                        stack.push(ScopeModel::Object(v)),
                        pc + 1,
                        out,
                        f2,
                    ),
                    Err(e) => RunResult { out, err: Some(e), fuel: f2 },
                }
            },
            InstructionModel::PushNamedContext(path, name) => {
                match spec_lookup(stack, path) {
                    Ok(v) => spec_run(
                        tmpls,
                        fmts,
                        prog,
                        stack.push(ScopeModel::Named(name, v)),
                        pc + 1,
                        out,
                        f2,
                    ),
                    Err(e) => RunResult { out, err: Some(e), fuel: f2 },
                }
            },
            InstructionModel::PushIterationContext(path, name) => {
                match spec_lookup(stack, path) {
                    Ok(v) => match v {
                        Value::Array(arr) => spec_run(
                            tmpls,
                            fmts,
                            prog,
                            stack.push(ScopeModel::Iteration { name, elems: arr@, pos: 0 }),
                            pc + 1,
                            out,
                            f2,
                        ),
                        _ => RunResult {
                            out,
                            err: Some(RenderErrorModel::NotIterable { path }),
                            fuel: f2,
                        },
                    },
                    Err(e) => RunResult { out, err: Some(e), fuel: f2 },
                }
            },
            InstructionModel::PopContext => {
                let stack2 = if stack.len() > 0 {
                    stack.drop_last()
                } else {
                    stack
                };
                spec_run(tmpls, fmts, prog, stack2, pc + 1, out, f2)
            },
            InstructionModel::Goto(target) => spec_run(tmpls, fmts, prog, stack, target, out, f2),
            InstructionModel::Iterate(target) => {
                if stack.len() > 0 && stack.last() is Iteration {
                    let name = stack.last()->Iteration_name;
                    let elems = stack.last()->Iteration_elems;
                    let pos = stack.last()->Iteration_pos;
                    if pos < elems.len() {
                        spec_run(
                            tmpls,
                            fmts,
                            prog,
                            stack.update(
                                stack.len() - 1,
                                ScopeModel::Iteration { name, elems, pos: pos + 1 },
                            ),
                            pc + 1,
                            out,
                            f2,
                        )
                    } else {
                        spec_run(tmpls, fmts, prog, stack, target, out, f2)
                    }
                } else {
                    RunResult { out, err: Some(RenderErrorModel::Internal), fuel: f2 }
                }
            },
            InstructionModel::Call(name, path) => {
                match spec_lookup(stack, path) {
                    Ok(v) => if tmpls.contains_key(name) {
                        let sub = spec_run(
                            tmpls,
                            fmts,
                            tmpls[name],
                            seq![ScopeModel::Object(v)],
                            0,
                            out,
                            f2,
                        );
                        if sub.err is None {
                            let fl = if sub.fuel < f2 {
                                sub.fuel
                            } else {
                                f2
                            };
                            spec_run(tmpls, fmts, prog, stack, pc + 1, sub.out, fl)
                        } else {
                            sub
                        }
                    } else {
                        RunResult {
                            out,
                            err: Some(RenderErrorModel::UnknownTemplate { name }),
                            fuel: f2,
                        }
                    },
                    Err(e) => RunResult { out, err: Some(e), fuel: f2 },
                }
            },
        }
    }
}

/// The interpreter never returns more fuel than it was given.
pub proof fn lemma_spec_run_fuel<F: ValueFormatter>(
    tmpls: Map<Seq<char>, Seq<InstructionModel>>,
    fmts: FormatterRegistry<F>,
    prog: Seq<InstructionModel>,
    stack: Seq<ScopeModel>,
    pc: int,
    out: Seq<char>,
    fuel: nat,
)
    ensures
        spec_run(tmpls, fmts, prog, stack, pc, out, fuel).fuel <= fuel,
    decreases fuel,
{
    if pc < 0 || pc >= prog.len() {
    } else if fuel == 0 {
    } else {
        let f2 = (fuel - 1) as nat;
        match prog[pc] {
            InstructionModel::Literal(text) => lemma_spec_run_fuel(
                tmpls,
                fmts,
                prog,
                stack,
                pc + 1,
                out + text,
                f2,
            ),
            InstructionModel::Value(path) => {
                if path.len() > 0 && path[0].len() > 0 && path[0][0] == '@' {
                    if path[0] == "@index"@ {
                        match spec_lookup_index(stack) {
                            Ok(i) => lemma_spec_run_fuel(tmpls, fmts, prog, stack, pc + 1, out
                                + dec_str(i as nat), f2),
                            Err(e) => {},
                        }
                    }
                } else {
                    match spec_lookup(stack, path) {
                        Ok(v) => if is_printable(v) {
                            lemma_spec_run_fuel(tmpls, fmts, prog, stack, pc + 1, out + value_text(
                                v,
                            ), f2)
                        },
                        Err(e) => {},
                    }
                }
            },
            InstructionModel::FormattedValue(path, name) => {
                match spec_lookup(stack, path) {
                    Ok(v) => if fmts.has(name) {
                        match fmts.spec_format(name, v) {
                            Ok(text) => lemma_spec_run_fuel(tmpls, fmts, prog, stack, pc + 1, out
                                + text, f2),
                            Err(e) => {},
                        }
                    },
                    Err(e) => {},
                }
            },
            InstructionModel::Branch(path, target) => {
                match spec_lookup(stack, path) {
                    Ok(v) => if !has_truthiness(v) {
                    } else if truthy(v) {
                        lemma_spec_run_fuel(tmpls, fmts, prog, stack, pc + 1, out, f2)
                    } else {
                        lemma_spec_run_fuel(tmpls, fmts, prog, stack, target, out, f2)
                    },
                    Err(e) => {},
                }
            },
            InstructionModel::PushContext(path) => {
                match spec_lookup(stack, path) {
                    Ok(v) => lemma_spec_run_fuel(
                        tmpls,
                        fmts,
                        prog,
                        stack.push(ScopeModel::Object(v)),
                        pc + 1,
                        out,
                        f2,
                    ),
                    Err(e) => {},
                }
            },
            InstructionModel::PushNamedContext(path, name) => {
                match spec_lookup(stack, path) {
                    Ok(v) => lemma_spec_run_fuel(
                        tmpls,
                        fmts,
                        prog,
                        stack.push(ScopeModel::Named(name, v)),
                        pc + 1,
                        out,
                        f2,
                    ),
                    Err(e) => {},
                }
            },
            InstructionModel::PushIterationContext(path, name) => {
                match spec_lookup(stack, path) {
                    Ok(v) => match v {
                        Value::Array(arr) => lemma_spec_run_fuel(
                            tmpls,
                            fmts,
                            prog,
                            stack.push(ScopeModel::Iteration { name, elems: arr@, pos: 0 }),
                            pc + 1,
                            out,
                            f2,
                        ),
                        _ => {},
                    },
                    Err(e) => {},
                }
            },
            InstructionModel::PopContext => {
                let stack2 = if stack.len() > 0 {
                    stack.drop_last()
                } else {
                    stack
                };
                lemma_spec_run_fuel(tmpls, fmts, prog, stack2, pc + 1, out, f2)
            },
            InstructionModel::Goto(target) => lemma_spec_run_fuel(
                tmpls,
                fmts,
                prog,
                stack,
                target,
                out,
                f2,
            ),
            InstructionModel::Iterate(target) => {
                if stack.len() > 0 && stack.last() is Iteration {
                    let name = stack.last()->Iteration_name;
                    let elems = stack.last()->Iteration_elems;
                    let pos = stack.last()->Iteration_pos;
                    if pos < elems.len() {
                        lemma_spec_run_fuel(
                            tmpls,
                            fmts,
                            prog,
                            stack.update(
                                stack.len() - 1,
                                ScopeModel::Iteration { name, elems, pos: pos + 1 },
                            ),
                            pc + 1,
                            out,
                            f2,
                        )
                    } else {
                        lemma_spec_run_fuel(tmpls, fmts, prog, stack, target, out, f2)
                    }
                }
            },
            InstructionModel::Call(name, path) => {
                match spec_lookup(stack, path) {
                    Ok(v) => if tmpls.contains_key(name) {
                        let sub = spec_run(
                            tmpls,
                            fmts,
                            tmpls[name],
                            seq![ScopeModel::Object(v)],
                            0,
                            out,
                            f2,
                        );
                        lemma_spec_run_fuel(
                            tmpls,
                            fmts,
                            tmpls[name],
                            seq![ScopeModel::Object(v)],
                            0,
                            out,
                            f2,
                        );
                        if sub.err is None {
                            let fl = if sub.fuel < f2 {
                                sub.fuel
                            } else {
                                f2
                            };
                            lemma_spec_run_fuel(tmpls, fmts, prog, stack, pc + 1, sub.out, fl)
                        }
                    },
                    Err(e) => {},
                }
            },
        }
    }
}

/// A whole render: the program run from its start against a fresh stack
/// holding the root value, with the full step budget.
pub open spec fn spec_render<F: ValueFormatter>(
    tmpls: Map<Seq<char>, Seq<InstructionModel>>,
    fmts: FormatterRegistry<F>,
    prog: Seq<InstructionModel>,
    root: Value,
    out0: Seq<char>,
) -> Result<Seq<char>, RenderErrorModel> {
    let rr = spec_run(tmpls, fmts, prog, seq![ScopeModel::Object(root)], 0, out0, RENDER_FUEL as nat);
    match rr.err {
        None => Ok(rr.out),
        Some(e) => Err(e),
    }
}

/// The text a whole render leaves in the output buffer, whether it completed
/// or aborted: on an abort, exactly the partial output accumulated before
/// the failing instruction.
pub open spec fn spec_render_output<F: ValueFormatter>(
    tmpls: Map<Seq<char>, Seq<InstructionModel>>,
    fmts: FormatterRegistry<F>,
    prog: Seq<InstructionModel>,
    root: Value,
    out0: Seq<char>,
) -> Seq<char> {
    spec_run(tmpls, fmts, prog, seq![ScopeModel::Object(root)], 0, out0, RENDER_FUEL as nat).out
}

/// Copies the suffix of a path starting at `from`, for error diagnostics.
fn copy_path_from(p: &Vec<String>, from: usize) -> (r: Vec<String>)
    requires
        from <= p@.len(),
    ensures
        strings_view(r@) == strings_view(p@).skip(from as int),
{
    let mut out: Vec<String> = Vec::new();
    let n = p.len();
    let mut i: usize = from;
    while i < n
        invariant
            from <= i <= n,
            n == p@.len(),
            out@.len() == i - from,
            forall|j: int| 0 <= j < out@.len() ==> (#[trigger] out@[j])@ == p@[from + j]@,
        decreases n - i,
    {
        out.push(p[i].clone());
        i = i + 1;
    }
    proof {
        assert(strings_view(out@) =~= strings_view(p@).skip(from as int));
    }
    out
}

/// Structural lookup of a path suffix within a value, by reference.
fn lookup_in<'render>(
    object: &'render Value,
    path: &Vec<String>,
    base: usize,
    start: usize,
) -> (r: Result<&'render Value, RenderError>)
    requires
        base <= start <= path@.len(),
    ensures
        match r {
            Ok(v) => spec_lookup_in(*object, strings_view(path@), base as int, start as int)
                == Ok::<_, RenderErrorModel>(*v),
            Err(e) => spec_lookup_in(*object, strings_view(path@), base as int, start as int)
                == Err::<Value, _>(e@),
        },
{
    let ghost pm = strings_view(path@);
    let mut current: &'render Value = object;
    let mut i: usize = start;
    let n = path.len();
    while i < n
        invariant
            base <= start <= i <= n,
            n == path@.len(),
            pm == strings_view(path@),
            spec_lookup_in(*object, pm, base as int, start as int) == spec_lookup_in(
                *current,
                pm,
                base as int,
                i as int,
            ),
        decreases n - i,
    {
        match value_get_exec(current, path[i].as_str()) {
            Some(next) => {
                current = next;
                i = i + 1;
            },
            None => {
                let available: Option<Vec<String>> = match current {
                    Value::Object(entries) => Some(object_keys_exec(entries)),
                    _ => None,
                };
                let err = RenderError::Lookup {
                    step: path[i].clone(),
                    path: copy_path_from(path, base),
                    available,
                };
                return Err(err);
            },
        }
    }
    Ok(current)
}

/// Innermost-first lookup of a path in the context stack, by reference.
fn lookup<'render>(stack: &Vec<ContextElement<'render>>, path: &Vec<String>) -> (r: Result<
    &'render Value,
    RenderError,
>)
    ensures
        match r {
            Ok(v) => spec_lookup(scopes_view(stack@), strings_view(path@)) == Ok::<
                _,
                RenderErrorModel,
            >(*v),
            Err(e) => spec_lookup(scopes_view(stack@), strings_view(path@)) == Err::<Value, _>(e@),
        },
{
    let ghost sm = scopes_view(stack@);
    let ghost pm = strings_view(path@);
    if path.len() == 0 {
        return Err(RenderError::Internal);
    }
    proof {
        assert(sm.take(stack@.len() as int) =~= sm);
    }
    let mut i: usize = stack.len();
    while i > 0
        invariant
            0 <= i <= stack@.len(),
            sm == scopes_view(stack@),
            pm == strings_view(path@),
            pm.len() > 0,
            spec_lookup(sm, pm) == spec_lookup(sm.take(i as int), pm),
        decreases i,
    {
        let ghost taken = sm.take(i as int);
        proof {
            assert(taken.last() == stack@[i - 1]@);
            assert(taken.drop_last() =~= sm.take(i as int - 1));
        }
        match &stack[i - 1] {
            ContextElement::Object(v) => {
                return lookup_in(v, path, 0, 0);
            },
            ContextElement::Named(name, v) => {
                if str_eq(name.as_str(), path[0].as_str()) {
                    return lookup_in(v, path, 1, 1);
                }
            },
            ContextElement::Iteration(name, elems, pos) => {
                if str_eq(name.as_str(), path[0].as_str()) {
                    let p = *pos;
                    if 1 <= p && p <= elems.len() {
                        return lookup_in(&elems[p - 1], path, 1, 1);
                    } else {
                        return Err(RenderError::Internal);
                    }
                }
            },
        }
        i = i - 1;
    }
    proof {
        assert(sm.take(0) =~= Seq::<ScopeModel>::empty());
    }
    Err(RenderError::Internal)
}

/// The zero-based index of the innermost active iteration.
fn lookup_index(stack: &Vec<ContextElement>) -> (r: Result<usize, RenderError>)
    ensures
        match r {
            Ok(i) => spec_lookup_index(scopes_view(stack@)) == Ok::<int, RenderErrorModel>(
                i as int,
            ),
            Err(e) => spec_lookup_index(scopes_view(stack@)) == Err::<int, _>(e@),
        },
{
    let ghost sm = scopes_view(stack@);
    proof {
        assert(sm.take(stack@.len() as int) =~= sm);
    }
    let mut i: usize = stack.len();
    while i > 0
        invariant
            0 <= i <= stack@.len(),
            sm == scopes_view(stack@),
            spec_lookup_index(sm) == spec_lookup_index(sm.take(i as int)),
        decreases i,
    {
        let ghost taken = sm.take(i as int);
        proof {
            assert(taken.last() == stack@[i - 1]@);
            assert(taken.drop_last() =~= sm.take(i as int - 1));
        }
        match &stack[i - 1] {
            ContextElement::Iteration(_, _, pos) => {
                let p = *pos;
                let idx = if p == 0 {
                    usize::MAX
                } else {
                    p - 1
                };
                return Ok(idx);
            },
            _ => {},
        }
        i = i - 1;
    }
    proof {
        assert(sm.take(0) =~= Seq::<ScopeModel>::empty());
    }
    Err(RenderError::IndexOutsideLoop)
}

/// Executes a program against a fresh context stack seeded with the root
/// value, appending its output to `output`; returns the outcome together
/// with the fuel left over.
pub(crate) fn run_program<'render, F: ValueFormatter>(
    prog: &Vec<Instruction>,
    root: &'render Value,
    templates: &TemplateRegistry,
    formatters: &FormatterRegistry<F>,
    output: &mut String,
    fuel: u64,
) -> (r: (Result<(), RenderError>, u64))
    ensures
        ({
            let rr = spec_run(
                templates@,
                *formatters,
                instructions_view(prog@),
                seq![ScopeModel::Object(*root)],
                0,
                old(output)@,
                fuel as nat,
            );
            &&& final(output)@ == rr.out
            &&& r.1 as nat == rr.fuel
            &&& match r.0 {
                Ok(_) => rr.err is None,
                Err(e) => rr.err == Some(e@),
            }
        }),
        old(output)@.is_prefix_of(final(output)@),
    decreases fuel,
{
    let ghost tm = templates@;
    let ghost pm = instructions_view(prog@);
    let mut stack: Vec<ContextElement<'render>> = Vec::new();
    stack.push(ContextElement::Object(root));
    let mut pc: usize = 0;
    let mut fuel_left: u64 = fuel;
    proof {
        assert(scopes_view(stack@) =~= seq![ScopeModel::Object(*root)]);
    }
    loop
        invariant
            pm == instructions_view(prog@),
            tm == templates@,
            fuel_left <= fuel,
            old(output)@.is_prefix_of(output@),
            spec_run(
                tm,
                *formatters,
                pm,
                scopes_view(stack@),
                pc as int,
                output@,
                fuel_left as nat,
            ) == spec_run(
                tm,
                *formatters,
                pm,
                seq![ScopeModel::Object(*root)],
                0,
                old(output)@,
                fuel as nat,
            ),
        decreases fuel_left,
    {
        if pc >= prog.len() {
            return (Ok(()), fuel_left);
        }
        if fuel_left == 0 {
            return (Err(RenderError::StepLimit), 0);
        }
        let ghost pre_stack = scopes_view(stack@);
        let ghost pre_out = output@;
        let ghost pre_fuel = fuel_left as nat;
        let ghost pre_pc = pc as int;
        fuel_left = fuel_left - 1;
        match &prog[pc] {
            Instruction::Literal(text) => {
                output.append(text.as_str());
                pc = pc + 1;
            },
            Instruction::Value(path) => {
                let at_keyword = path.len() > 0 && starts_with_char(path[0].as_str(), '@');
                if at_keyword {
                    if str_eq(path[0].as_str(), "@index") {
                        match lookup_index(&stack) {
                            Ok(idx) => {
                                append_usize_dec(output, idx);
                                pc = pc + 1;
                            },
                            Err(e) => {
                                return (Err(e), fuel_left);
                            },
                        }
                    } else {
                        return (Err(RenderError::Internal), fuel_left);
                    }
                } else {
                    match lookup(&stack, path) {
                        Ok(v) => match crate::value::format(v, output) {
                            Ok(_) => {
                                pc = pc + 1;
                            },
                            Err(e) => {
                                return (Err(e), fuel_left);
                            },
                        },
                        Err(e) => {
                            return (Err(e), fuel_left);
                        },
                    }
                }
            },
            Instruction::FormattedValue(path, name) => {
                match lookup(&stack, path) {
                    Ok(v) => match formatters.find(name.as_str()) {
                        Some(f) => match f.apply(v) {
                            Ok(text) => {
                                output.append(text.as_str());
                                pc = pc + 1;
                            },
                            Err(e) => {
                                return (Err(e), fuel_left);
                            },
                        },
                        None => {
                            return (
                                Err(RenderError::UnknownFormatter { name: name.clone() }),
                                fuel_left,
                            );
                        },
                    },
                    Err(e) => {
                        return (Err(e), fuel_left);
                    },
                }
            },
            Instruction::Branch(path, target) => {
                match lookup(&stack, path) {
                    Ok(v) => {
                        let evaluable = match v {
                            Value::Object(_) => false,
                            _ => true,
                        };
                        proof {
                            assert(strings_view(path@).skip(0) =~= strings_view(path@));
                        }
                        if !evaluable {
                            return (
                                Err(RenderError::NotTruthy { path: copy_path_from(path, 0) }),
                                fuel_left,
                            );
                        }
                        if truthy_exec(v) {
                            pc = pc + 1;
                        } else {
                            pc = *target;
                        }
                    },
                    Err(e) => {
                        return (Err(e), fuel_left);
                    },
                }
            },
            Instruction::PushContext(path) => {
                match lookup(&stack, path) {
                    Ok(v) => {
                        stack.push(ContextElement::Object(v));
                        proof {
                            assert(scopes_view(stack@) =~= pre_stack.push(ScopeModel::Object(*v)));
                        }
                        pc = pc + 1;
                    },
                    Err(e) => {
                        return (Err(e), fuel_left);
                    },
                }
            },
            Instruction::PushNamedContext(path, name) => {
                match lookup(&stack, path) {
                    Ok(v) => {
                        let ghost nm = name@;
                        stack.push(ContextElement::Named(name.clone(), v));
                        proof {
                            assert(scopes_view(stack@) =~= pre_stack.push(
                                ScopeModel::Named(nm, *v),
                            ));
                        }
                        pc = pc + 1;
                    },
                    Err(e) => {
                        return (Err(e), fuel_left);
                    },
                }
            },
            Instruction::PushIterationContext(path, name) => {
                match lookup(&stack, path) {
                    Ok(v) => match v {
                        Value::Array(arr) => {
                            let ghost nm = name@;
                            stack.push(ContextElement::Iteration(name.clone(), arr, 0));
                            proof {
                                assert(scopes_view(stack@) =~= pre_stack.push(
                                    ScopeModel::Iteration { name: nm, elems: arr@, pos: 0 },
                                ));
                            }
                            pc = pc + 1;
                        },
                        _ => {
                            proof {
                                assert(strings_view(path@).skip(0) =~= strings_view(path@));
                            }
                            return (
                                Err(RenderError::NotIterable { path: copy_path_from(path, 0) }),
                                fuel_left,
                            );
                        },
                    },
                    Err(e) => {
                        return (Err(e), fuel_left);
                    },
                }
            },
            Instruction::PopContext => {
                if stack.len() > 0 {
                    let _discarded = stack.pop();
                    proof {
                        assert(scopes_view(stack@) =~= pre_stack.drop_last());
                    }
                } else {
                    proof {
                        assert(scopes_view(stack@) =~= pre_stack);
                    }
                }
                pc = pc + 1;
            },
            Instruction::Goto(target) => {
                pc = *target;
            },
            Instruction::Iterate(target) => {
                if stack.len() == 0 {
                    return (Err(RenderError::Internal), fuel_left);
                }
                let top = stack.pop();
                match top {
                    Some(ContextElement::Iteration(name, elems, pos)) => {
                        if pos < elems.len() {
                            stack.push(ContextElement::Iteration(name, elems, pos + 1));
                            proof {
                                assert(scopes_view(stack@) =~= pre_stack.update(
                                    pre_stack.len() - 1,
                                    stack@[stack@.len() - 1]@,
                                ));
                            }
                            pc = pc + 1;
                        } else {
                            stack.push(ContextElement::Iteration(name, elems, pos));
                            proof {
                                assert(scopes_view(stack@) =~= pre_stack);
                            }
                            pc = *target;
                        }
                    },
                    _ => {
                        return (Err(RenderError::Internal), fuel_left);
                    },
                }
            },
            Instruction::Call(name, path) => {
                match lookup(&stack, path) {
                    Ok(v) => match templates.get(name.as_str()) {
                        Some(templ) => {
                            proof {
                                crate::template::template_view_is(templ);
                                lemma_spec_run_fuel(
                                    tm,
                                    *formatters,
                                    tm[name@],
                                    seq![ScopeModel::Object(*v)],
                                    0,
                                    output@,
                                    fuel_left as nat,
                                );
                            }
                            let (sub_res, sub_fuel) = run_program(
                                &templ.instructions,
                                v,
                                templates,
                                formatters,
                                output,
                                fuel_left,
                            );
                            match sub_res {
                                Ok(_) => {
                                    fuel_left = sub_fuel;
                                    pc = pc + 1;
                                },
                                Err(e) => {
                                    return (Err(e), sub_fuel);
                                },
                            }
                        },
                        None => {
                            return (
                                Err(RenderError::UnknownTemplate { name: name.clone() }),
                                fuel_left,
                            );
                        },
                    },
                    Err(e) => {
                        return (Err(e), fuel_left);
                    },
                }
            },
        }
        proof {
            assert(spec_run(tm, *formatters, pm, pre_stack, pre_pc, pre_out, pre_fuel) == spec_run(
                tm,
                *formatters,
                pm,
                scopes_view(stack@),
                pc as int,
                output@,
                fuel_left as nat,
            ));
        }
    }
}

} // verus!
