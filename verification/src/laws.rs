//! Engine-wide laws, each proved from the specifications that the compiler
//! and the renderer are verified against.

use vstd::prelude::*;

use crate::compiler::{
    apply_trim_last, line_of, spec_close_branch, spec_close_for, spec_compile, spec_compile_from,
    spec_compile_step, spec_consume_block, spec_consume_tag, spec_consume_value,
    spec_dispatch_block, spec_parse_call, spec_parse_for, spec_parse_path, spec_parse_with,
    split_on_char, text_split_at, trim_last_ws, BlockModel, BlockTag, CompileState,
};
use crate::error::{ParseErrorModel, RenderErrorModel};
use crate::instruction::InstructionModel;
use crate::num::dec_str;
use crate::render::{
    spec_lookup, spec_lookup_in, spec_lookup_index, spec_render, spec_run, FormatterRegistry,
    RunResult, ScopeModel, ValueFormatter, RENDER_FUEL,
};
use crate::text::{find2_spec, find_char_spec, lemma_find_char, starts2};
use crate::value::{has_truthiness, is_printable, truthy, value_text, Value};
use crate::UNKNOWN;

verus! {

/// Compiling the same source twice yields structurally identical instruction
/// sequences, jump targets included: compilation is a mathematical function
/// of the source text alone, and every call of `Template::compile` or
/// `TemplateCompiler::compile` is proved to return exactly that function's
/// value.
pub proof fn lemma_compile_deterministic(
    text: Seq<char>,
    r1: Result<Seq<InstructionModel>, ParseErrorModel>,
    r2: Result<Seq<InstructionModel>, ParseErrorModel>,
)
    requires
        r1 == spec_compile(text),
        r2 == spec_compile(text),
    ensures
        r1 == r2,
{
}

/// Text with no `{` compiles to a single literal instruction (or to the
/// empty program when the text is empty).
pub proof fn lemma_compile_pure_literal(text: Seq<char>)
    requires
        forall|i: int| 0 <= i < text.len() ==> text[i] != '{',
    ensures
        text.len() == 0 ==> spec_compile(text) == Ok::<_, ParseErrorModel>(
            Seq::<InstructionModel>::empty(),
        ),
        text.len() > 0 ==> spec_compile(text) == Ok::<_, ParseErrorModel>(
            seq![InstructionModel::Literal(text)],
        ),
{
    let st = CompileState {
        rem: text,
        ins: Seq::<InstructionModel>::empty(),
        blocks: Seq::empty(),
        trim_next: false,
    };
    if text.len() == 0 {
        assert(spec_compile_from(st) == Ok::<_, ParseErrorModel>(st.ins));
    } else {
        lemma_find_char(text, '{');
        assert(find_char_spec(text, '{') is None);
        assert(text_split_at(text) == text.len() as int);
        let st2 = CompileState {
            rem: text.skip(text.len() as int),
            ins: Seq::<InstructionModel>::empty() + seq![InstructionModel::Literal(text.take(
                text.len() as int,
            ))],
            blocks: Seq::empty(),
            trim_next: false,
        };
        assert(text.take(text.len() as int) =~= text);
        assert(spec_compile_step(st) == Ok::<CompileState, ParseErrorModel>(st2));
        assert(st2.rem.len() == 0);
        assert(spec_compile_from(st2) == Ok::<_, ParseErrorModel>(st2.ins));
        assert(st2.ins =~= seq![InstructionModel::Literal(text)]);
    }
}

/// Rendering a single-literal program yields exactly that literal's text.
pub proof fn lemma_render_single_literal<F: ValueFormatter>(
    tmpls: Map<Seq<char>, Seq<InstructionModel>>,
    fmts: FormatterRegistry<F>,
    text: Seq<char>,
    root: Value,
)
    ensures
        spec_render(tmpls, fmts, seq![InstructionModel::Literal(text)], root, Seq::empty())
            == Ok::<_, RenderErrorModel>(text),
{
    let prog = seq![InstructionModel::Literal(text)];
    let stack = seq![ScopeModel::Object(root)];
    let fuel = RENDER_FUEL as nat;
    let out1 = Seq::<char>::empty() + text;
    assert(spec_run(tmpls, fmts, prog, stack, 0, Seq::empty(), fuel) == spec_run(
        tmpls,
        fmts,
        prog,
        stack,
        1,
        out1,
        (fuel - 1) as nat,
    ));
    assert(out1 =~= text);
}

/// For any literal text containing no `{`, compiling and then rendering
/// against any context yields the text unchanged, whatever templates and
/// formatters are registered.
pub proof fn lemma_literal_text_roundtrip<F: ValueFormatter>(
    tmpls: Map<Seq<char>, Seq<InstructionModel>>,
    fmts: FormatterRegistry<F>,
    text: Seq<char>,
    root: Value,
)
    requires
        forall|i: int| 0 <= i < text.len() ==> text[i] != '{',
    ensures
        spec_compile(text) matches Ok(prog) && spec_render(tmpls, fmts, prog, root, Seq::empty())
            == Ok::<_, RenderErrorModel>(text),
{
    lemma_compile_pure_literal(text);
    if text.len() == 0 {
        let prog = Seq::<InstructionModel>::empty();
        assert(spec_run(tmpls, fmts, prog, seq![ScopeModel::Object(root)], 0, Seq::empty(),
            RENDER_FUEL as nat) == (RunResult {
            out: Seq::<char>::empty(),
            err: None,
            fuel: RENDER_FUEL as nat,
        }));
        assert(Seq::<char>::empty() =~= text);
    } else {
        lemma_render_single_literal(tmpls, fmts, text, root);
    }
}

/// The conditional chooses its arms by truthiness alone: over the program
/// that `{% if c %}A{% else %}B{% endif %}` compiles to — a branch over the
/// condition path, the first arm, a goto past the second arm, the second arm
/// — rendering emits the first arm's text exactly when the condition's value
/// is truthy, and the second arm's text otherwise, for every value that has
/// a truthiness.
pub proof fn lemma_branch_chooses_arm_by_truthiness<F: ValueFormatter>(
    tmpls: Map<Seq<char>, Seq<InstructionModel>>,
    fmts: FormatterRegistry<F>,
    path: Seq<Seq<char>>,
    cond: Value,
    first_arm: Seq<char>,
    second_arm: Seq<char>,
    root: Value,
)
    requires
        has_truthiness(cond),
        spec_lookup(seq![ScopeModel::Object(root)], path) == Ok::<Value, RenderErrorModel>(cond),
    ensures
        spec_render(
            tmpls,
            fmts,
            seq![
                InstructionModel::Branch(path, 3),
                InstructionModel::Literal(first_arm),
                InstructionModel::Goto(4),
                InstructionModel::Literal(second_arm),
            ],
            root,
            Seq::empty(),
        ) == Ok::<_, RenderErrorModel>(
            if truthy(cond) {
                first_arm
            } else {
                second_arm
            },
        ),
{
    let prog = seq![
        InstructionModel::Branch(path, 3),
        InstructionModel::Literal(first_arm),
        InstructionModel::Goto(4),
        InstructionModel::Literal(second_arm),
    ];
    let stack = seq![ScopeModel::Object(root)];
    let f0 = RENDER_FUEL as nat;
    let f1 = (f0 - 1) as nat;
    let f2 = (f1 - 1) as nat;
    let f3 = (f2 - 1) as nat;
    if truthy(cond) {
        let out1 = Seq::<char>::empty() + first_arm;
        assert(spec_run(tmpls, fmts, prog, stack, 0, Seq::empty(), f0) == spec_run(
            tmpls,
            fmts,
            prog,
            stack,
            1,
            Seq::empty(),
            f1,
        ));
        assert(spec_run(tmpls, fmts, prog, stack, 1, Seq::empty(), f1) == spec_run(
            tmpls,
            fmts,
            prog,
            stack,
            2,
            out1,
            f2,
        ));
        assert(spec_run(tmpls, fmts, prog, stack, 2, out1, f2) == spec_run(
            tmpls,
            fmts,
            prog,
            stack,
            4,
            out1,
            f3,
        ));
        assert(spec_run(tmpls, fmts, prog, stack, 4, out1, f3) == (RunResult {
            out: out1,
            err: None,
            fuel: f3,
        }));
        assert(out1 =~= first_arm);
    } else {
        let out1 = Seq::<char>::empty() + second_arm;
        assert(spec_run(tmpls, fmts, prog, stack, 0, Seq::empty(), f0) == spec_run(
            tmpls,
            fmts,
            prog,
            stack,
            3,
            Seq::empty(),
            f1,
        ));
        assert(spec_run(tmpls, fmts, prog, stack, 3, Seq::empty(), f1) == spec_run(
            tmpls,
            fmts,
            prog,
            stack,
            4,
            out1,
            f2,
        ));
        assert(spec_run(tmpls, fmts, prog, stack, 4, out1, f2) == (RunResult {
            out: out1,
            err: None,
            fuel: f2,
        }));
        assert(out1 =~= second_arm);
    }
}

/// A named scope whose bound name differs from the path's first segment does
/// not shadow outer scopes: the lookup resolves exactly as it would without
/// that scope.
pub proof fn lemma_named_scope_does_not_shadow(
    stack: Seq<ScopeModel>,
    name: Seq<char>,
    bound: Value,
    path: Seq<Seq<char>>,
)
    requires
        path.len() > 0,
        name != path[0],
    ensures
        spec_lookup(stack.push(ScopeModel::Named(name, bound)), path) == spec_lookup(stack, path),
{
    let pushed = stack.push(ScopeModel::Named(name, bound));
    assert(pushed.last() == ScopeModel::Named(name, bound));
    assert(pushed.drop_last() =~= stack);
}

/// A named scope whose bound name equals the path's first segment resolves
/// the remaining segments against its bound value.
pub proof fn lemma_named_scope_resolves_its_name(
    stack: Seq<ScopeModel>,
    name: Seq<char>,
    bound: Value,
    path: Seq<Seq<char>>,
)
    requires
        path.len() > 0,
        name == path[0],
    ensures
        spec_lookup(stack.push(ScopeModel::Named(name, bound)), path) == spec_lookup_in(
            bound,
            path,
            1,
            1,
        ),
{
    let pushed = stack.push(ScopeModel::Named(name, bound));
    assert(pushed.last() == ScopeModel::Named(name, bound));
}

/// A path step that does not resolve aborts the lookup with the typed
/// lookup error naming that step, never silently.
pub proof fn lemma_unresolved_step_is_error(v: Value, path: Seq<Seq<char>>, base: int, cur: int)
    requires
        0 <= base <= cur < path.len(),
        crate::value::value_get(v, path[cur]) is None,
    ensures
        spec_lookup_in(v, path, base, cur) == Err::<Value, RenderErrorModel>(
            RenderErrorModel::Lookup {
                step: path[cur],
                path: path.skip(base),
                available: crate::render::avail_of(v),
            },
        ),
{
}

/// A formatter name absent from the formatter registry aborts the render
/// with the unknown-formatter error, never silently.
pub proof fn lemma_unknown_formatter_is_error<F: ValueFormatter>(
    tmpls: Map<Seq<char>, Seq<InstructionModel>>,
    fmts: FormatterRegistry<F>,
    prog: Seq<InstructionModel>,
    stack: Seq<ScopeModel>,
    pc: int,
    out: Seq<char>,
    fuel: nat,
    path: Seq<Seq<char>>,
    name: Seq<char>,
)
    requires
        0 <= pc < prog.len(),
        fuel > 0,
        prog[pc] == InstructionModel::FormattedValue(path, name),
        spec_lookup(stack, path) is Ok,
        !fmts.has(name),
    ensures
        spec_run(tmpls, fmts, prog, stack, pc, out, fuel).err == Some(
            RenderErrorModel::UnknownFormatter { name },
        ),
        spec_run(tmpls, fmts, prog, stack, pc, out, fuel).out == out,
{
}

/// A template name absent from the template registry aborts the render with
/// the unknown-template error, never silently.
pub proof fn lemma_unknown_template_is_error<F: ValueFormatter>(
    tmpls: Map<Seq<char>, Seq<InstructionModel>>,
    fmts: FormatterRegistry<F>,
    prog: Seq<InstructionModel>,
    stack: Seq<ScopeModel>,
    pc: int,
    out: Seq<char>,
    fuel: nat,
    path: Seq<Seq<char>>,
    name: Seq<char>,
)
    requires
        0 <= pc < prog.len(),
        fuel > 0,
        prog[pc] == InstructionModel::Call(name, path),
        spec_lookup(stack, path) is Ok,
        !tmpls.contains_key(name),
    ensures
        spec_run(tmpls, fmts, prog, stack, pc, out, fuel).err == Some(
            RenderErrorModel::UnknownTemplate { name },
        ),
        spec_run(tmpls, fmts, prog, stack, pc, out, fuel).out == out,
{
}

/// A `for` whose target value is not an array aborts the render with the
/// not-iterable error, never silently.
pub proof fn lemma_iterating_non_array_is_error<F: ValueFormatter>(
    tmpls: Map<Seq<char>, Seq<InstructionModel>>,
    fmts: FormatterRegistry<F>,
    prog: Seq<InstructionModel>,
    stack: Seq<ScopeModel>,
    pc: int,
    out: Seq<char>,
    fuel: nat,
    path: Seq<Seq<char>>,
    name: Seq<char>,
)
    requires
        0 <= pc < prog.len(),
        fuel > 0,
        prog[pc] == InstructionModel::PushIterationContext(path, name),
        spec_lookup(stack, path) matches Ok(v) && !(v is Array),
    ensures
        spec_run(tmpls, fmts, prog, stack, pc, out, fuel).err == Some(
            RenderErrorModel::NotIterable { path },
        ),
        spec_run(tmpls, fmts, prog, stack, pc, out, fuel).out == out,
{
}

/// A tag whose closer does not occur after its opener on the opening line is
/// a parse error: the whole compilation fails with the unclosed-tag error.
/// (Stated here for a value tag at the start of the source; the block and
/// comment tags fail through the same single consuming function.)
pub proof fn lemma_unterminated_tag_fails(text: Seq<char>)
    requires
        starts2(text, '{', '{'),
        find2_spec(line_of(text).skip(2), '}', '}') is None,
    ensures
        spec_compile(text) == Err::<Seq<InstructionModel>, _>(
            ParseErrorModel::UnclosedTag { closer: "}}"@ },
        ),
{
    reveal_strlit("}}");
    let st = CompileState {
        rem: text,
        ins: Seq::<InstructionModel>::empty(),
        blocks: Seq::empty(),
        trim_next: false,
    };
    assert(spec_consume_tag(text, "}}"@) == Err::<(Seq<char>, Seq<char>), ParseErrorModel>(
        ParseErrorModel::UnclosedTag { closer: "}}"@ },
    ));
}

/// An `endif` or `else` whose innermost open block is not an `if` is a parse
/// error: block markers are type-checked on pop, not just counted.
pub proof fn lemma_mismatched_endif_is_error(
    ins: Seq<InstructionModel>,
    blocks: Seq<BlockModel>,
    new_target: int,
)
    requires
        blocks.len() == 0 || !(blocks.last() is Branch),
    ensures
        spec_close_branch(ins, blocks, new_target) == Err::<
            (Seq<InstructionModel>, Seq<BlockModel>),
            _,
        >(ParseErrorModel::MismatchedEndIf),
{
}

/// An `endfor` whose innermost open block is not a `for` is a parse error.
pub proof fn lemma_mismatched_endfor_is_error(
    ins: Seq<InstructionModel>,
    blocks: Seq<BlockModel>,
    new_target: int,
)
    requires
        blocks.len() == 0 || !(blocks.last() is For),
    ensures
        spec_close_for(ins, blocks, new_target) == Err::<
            (Seq<InstructionModel>, Seq<BlockModel>, int),
            _,
        >(ParseErrorModel::MismatchedEndFor),
{
}

/// An `endwith` whose innermost open block is not a `with` is a parse error.
pub proof fn lemma_mismatched_endwith_is_error(
    st: CompileState,
    bt: BlockTag,
    ins1: Seq<InstructionModel>,
    tn: bool,
)
    requires
        bt.discriminant == "endwith"@,
        bt.rest.len() == 0,
        st.blocks.len() == 0 || !(st.blocks.last() is With),
    ensures
        spec_dispatch_block(st, bt, ins1, tn) == Err::<CompileState, _>(
            ParseErrorModel::MismatchedEndWith,
        ),
{
    reveal_strlit("endwith");
    reveal_strlit("if");
    reveal_strlit("else");
    reveal_strlit("endif");
    reveal_strlit("with");
    assert(bt.discriminant.len() == 7);
    assert("if"@.len() == 2 && "else"@.len() == 4 && "endif"@.len() == 5 && "with"@.len() == 4);
    assert(bt.discriminant != "if"@);
    assert(bt.discriminant != "else"@);
    assert(bt.discriminant != "endif"@);
    assert(bt.discriminant != "with"@);
}

/// The program that `{% for name in path %}{{ name }}{% endfor %}` compiles
/// to: begin iterating, advance-or-exit, emit the loop variable, loop, and
/// discard the iteration scope.
pub open spec fn for_loop_program(path: Seq<Seq<char>>, name: Seq<char>) -> Seq<InstructionModel> {
    seq![
        InstructionModel::PushIterationContext(path, name),
        InstructionModel::Iterate(4),
        InstructionModel::Value(seq![name]),
        InstructionModel::Goto(1),
        InstructionModel::PopContext,
    ]
}

/// The canonical texts of the elements from `from` on, concatenated.
pub open spec fn texts_concat(elems: Seq<Value>, from: int) -> Seq<char>
    decreases elems.len() - from,
{
    if from < 0 || from >= elems.len() {
        Seq::<char>::empty()
    } else {
        value_text(elems[from]) + texts_concat(elems, from + 1)
    }
}

proof fn lemma_for_loop_iterations<F: ValueFormatter>(
    tmpls: Map<Seq<char>, Seq<InstructionModel>>,
    fmts: FormatterRegistry<F>,
    path: Seq<Seq<char>>,
    name: Seq<char>,
    root: Value,
    elems: Seq<Value>,
    pos: int,
    out: Seq<char>,
    fuel: nat,
)
    requires
        name.len() > 0,
        name[0] != '@',
        0 <= pos <= elems.len(),
        forall|i: int| pos <= i < elems.len() ==> is_printable(#[trigger] elems[i]),
        fuel >= 3 * (elems.len() - pos) + 2,
    ensures
        spec_run(
            tmpls,
            fmts,
            for_loop_program(path, name),
            seq![ScopeModel::Object(root), ScopeModel::Iteration { name, elems, pos }],
            1,
            out,
            fuel,
        ) == (RunResult {
            out: out + texts_concat(elems, pos),
            err: None,
            fuel: (fuel - 3 * (elems.len() - pos) - 2) as nat,
        }),
    decreases elems.len() - pos,
{
    let prog = for_loop_program(path, name);
    let stack = seq![ScopeModel::Object(root), ScopeModel::Iteration { name, elems, pos }];
    if pos == elems.len() {
        // The iteration is exhausted: exit the loop, pop the scope, halt.
        let f1 = (fuel - 1) as nat;
        let f2 = (fuel - 2) as nat;
        let popped = stack.drop_last();
        assert(spec_run(tmpls, fmts, prog, stack, 1, out, fuel) == spec_run(
            tmpls,
            fmts,
            prog,
            stack,
            4,
            out,
            f1,
        ));
        assert(spec_run(tmpls, fmts, prog, stack, 4, out, f1) == spec_run(
            tmpls,
            fmts,
            prog,
            popped,
            5,
            out,
            f2,
        ));
        assert(spec_run(tmpls, fmts, prog, popped, 5, out, f2) == (RunResult {
            out,
            err: None,
            fuel: f2,
        }));
        assert(out + texts_concat(elems, pos) =~= out);
    } else {
        // Advance the iteration, emit the current element, and jump back.
        let f1 = (fuel - 1) as nat;
        let f2 = (fuel - 2) as nat;
        let f3 = (fuel - 3) as nat;
        let advanced = ScopeModel::Iteration { name, elems, pos: pos + 1 };
        let stack2 = stack.update(1, advanced);
        assert(stack.last() == ScopeModel::Iteration { name, elems, pos });
        assert(stack2 =~= seq![ScopeModel::Object(root), advanced]);
        assert(spec_run(tmpls, fmts, prog, stack, 1, out, fuel) == spec_run(
            tmpls,
            fmts,
            prog,
            stack2,
            2,
            out,
            f1,
        ));
        // The loop variable resolves to the freshly bound element.
        assert(stack2.last() == advanced);
        assert(spec_lookup(stack2, seq![name]) == spec_lookup_in(elems[pos], seq![name], 1, 1));
        assert(spec_lookup_in(elems[pos], seq![name], 1, 1) == Ok::<Value, RenderErrorModel>(
            elems[pos],
        ));
        let out2 = out + value_text(elems[pos]);
        assert(spec_run(tmpls, fmts, prog, stack2, 2, out, f1) == spec_run(
            tmpls,
            fmts,
            prog,
            stack2,
            3,
            out2,
            f2,
        ));
        assert(spec_run(tmpls, fmts, prog, stack2, 3, out2, f2) == spec_run(
            tmpls,
            fmts,
            prog,
            stack2,
            1,
            out2,
            f3,
        ));
        lemma_for_loop_iterations(tmpls, fmts, path, name, root, elems, pos + 1, out2, f3);
        assert(out2 + texts_concat(elems, pos + 1) =~= out + texts_concat(elems, pos));
    }
}

/// Iteration renders each element in order: the program compiled from
/// `{% for name in path %}{{ name }}{% endfor %}`, run against a root in
/// which the path resolves to an array of printable values, emits exactly
/// the concatenation of the elements' canonical texts — the empty output for
/// the empty array. The bound on the array's length keeps the run within the
/// renderer's step budget.
pub proof fn lemma_for_loop_concatenates_elements<F: ValueFormatter>(
    tmpls: Map<Seq<char>, Seq<InstructionModel>>,
    fmts: FormatterRegistry<F>,
    path: Seq<Seq<char>>,
    name: Seq<char>,
    root: Value,
    elems: Seq<Value>,
)
    requires
        name.len() > 0,
        name[0] != '@',
        spec_lookup(seq![ScopeModel::Object(root)], path) matches Ok(av) && av is Array
            && av->Array_0@ == elems,
        forall|i: int| 0 <= i < elems.len() ==> is_printable(#[trigger] elems[i]),
        3 * elems.len() + 3 <= RENDER_FUEL,
    ensures
        spec_render(tmpls, fmts, for_loop_program(path, name), root, Seq::empty()) == Ok::<
            Seq<char>,
            RenderErrorModel,
        >(texts_concat(elems, 0)),
{
    let prog = for_loop_program(path, name);
    let stack = seq![ScopeModel::Object(root)];
    let f0 = RENDER_FUEL as nat;
    let f1 = (f0 - 1) as nat;
    let started = stack.push(ScopeModel::Iteration { name, elems, pos: 0 });
    assert(spec_run(tmpls, fmts, prog, stack, 0, Seq::empty(), f0) == spec_run(
        tmpls,
        fmts,
        prog,
        started,
        1,
        Seq::empty(),
        f1,
    ));
    assert(started =~= seq![
        ScopeModel::Object(root),
        ScopeModel::Iteration { name, elems, pos: 0 },
    ]);
    lemma_for_loop_iterations(tmpls, fmts, path, name, root, elems, 0, Seq::empty(), f1);
    assert(Seq::<char>::empty() + texts_concat(elems, 0) =~= texts_concat(elems, 0));
}

/// The program that `{% for name in path %}{{ @index }}{% endfor %}`
/// compiles to.
pub open spec fn for_index_program(path: Seq<Seq<char>>, name: Seq<char>) -> Seq<
    InstructionModel,
> {
    seq![
        InstructionModel::PushIterationContext(path, name),
        InstructionModel::Iterate(4),
        InstructionModel::Value(seq!["@index"@]),
        InstructionModel::Goto(1),
        InstructionModel::PopContext,
    ]
}

/// The decimal texts of `from`, `from + 1`, ... up to (excluding) `count`,
/// concatenated.
pub open spec fn indices_concat(count: int, from: int) -> Seq<char>
    decreases count - from,
{
    if from < 0 || from >= count {
        Seq::<char>::empty()
    } else {
        dec_str(from as nat) + indices_concat(count, from + 1)
    }
}

proof fn lemma_for_index_iterations<F: ValueFormatter>(
    tmpls: Map<Seq<char>, Seq<InstructionModel>>,
    fmts: FormatterRegistry<F>,
    path: Seq<Seq<char>>,
    name: Seq<char>,
    root: Value,
    elems: Seq<Value>,
    pos: int,
    out: Seq<char>,
    fuel: nat,
)
    requires
        0 <= pos <= elems.len(),
        fuel >= 3 * (elems.len() - pos) + 2,
    ensures
        spec_run(
            tmpls,
            fmts,
            for_index_program(path, name),
            seq![ScopeModel::Object(root), ScopeModel::Iteration { name, elems, pos }],
            1,
            out,
            fuel,
        ) == (RunResult {
            out: out + indices_concat(elems.len() as int, pos),
            err: None,
            fuel: (fuel - 3 * (elems.len() - pos) - 2) as nat,
        }),
    decreases elems.len() - pos,
{
    reveal_strlit("@index");
    let prog = for_index_program(path, name);
    let stack = seq![ScopeModel::Object(root), ScopeModel::Iteration { name, elems, pos }];
    if pos == elems.len() {
        let f1 = (fuel - 1) as nat;
        let f2 = (fuel - 2) as nat;
        let popped = stack.drop_last();
        assert(spec_run(tmpls, fmts, prog, stack, 1, out, fuel) == spec_run(
            tmpls,
            fmts,
            prog,
            stack,
            4,
            out,
            f1,
        ));
        assert(spec_run(tmpls, fmts, prog, stack, 4, out, f1) == spec_run(
            tmpls,
            fmts,
            prog,
            popped,
            5,
            out,
            f2,
        ));
        assert(spec_run(tmpls, fmts, prog, popped, 5, out, f2) == (RunResult {
            out,
            err: None,
            fuel: f2,
        }));
        assert(out + indices_concat(elems.len() as int, pos) =~= out);
    } else {
        let f1 = (fuel - 1) as nat;
        let f2 = (fuel - 2) as nat;
        let f3 = (fuel - 3) as nat;
        let advanced = ScopeModel::Iteration { name, elems, pos: pos + 1 };
        let stack2 = stack.update(1, advanced);
        assert(stack.last() == ScopeModel::Iteration { name, elems, pos });
        assert(stack2 =~= seq![ScopeModel::Object(root), advanced]);
        assert(spec_run(tmpls, fmts, prog, stack, 1, out, fuel) == spec_run(
            tmpls,
            fmts,
            prog,
            stack2,
            2,
            out,
            f1,
        ));
        assert(stack2.last() == advanced);
        assert("@index"@.len() > 0 && "@index"@[0] == '@');
        assert(spec_lookup_index(stack2) == Ok::<int, RenderErrorModel>(pos));
        let out2 = out + dec_str(pos as nat);
        assert(spec_run(tmpls, fmts, prog, stack2, 2, out, f1) == spec_run(
            tmpls,
            fmts,
            prog,
            stack2,
            3,
            out2,
            f2,
        ));
        assert(spec_run(tmpls, fmts, prog, stack2, 3, out2, f2) == spec_run(
            tmpls,
            fmts,
            prog,
            stack2,
            1,
            out2,
            f3,
        ));
        lemma_for_index_iterations(tmpls, fmts, path, name, root, elems, pos + 1, out2, f3);
        assert(out2 + indices_concat(elems.len() as int, pos + 1) =~= out + indices_concat(
            elems.len() as int,
            pos,
        ));
    }
}

/// `@index` counts the iterations from zero: the program compiled from
/// `{% for name in path %}{{ @index }}{% endfor %}`, run against a root in
/// which the path resolves to an array, emits exactly the decimal indices
/// `0`, `1`, ... of the elements, in order.
pub proof fn lemma_for_loop_counts_indices<F: ValueFormatter>(
    tmpls: Map<Seq<char>, Seq<InstructionModel>>,
    fmts: FormatterRegistry<F>,
    path: Seq<Seq<char>>,
    name: Seq<char>,
    root: Value,
    elems: Seq<Value>,
)
    requires
        spec_lookup(seq![ScopeModel::Object(root)], path) matches Ok(av) && av is Array
            && av->Array_0@ == elems,
        3 * elems.len() + 3 <= RENDER_FUEL,
    ensures
        spec_render(tmpls, fmts, for_index_program(path, name), root, Seq::empty()) == Ok::<
            Seq<char>,
            RenderErrorModel,
        >(indices_concat(elems.len() as int, 0)),
{
    let prog = for_index_program(path, name);
    let stack = seq![ScopeModel::Object(root)];
    let f0 = RENDER_FUEL as nat;
    let f1 = (f0 - 1) as nat;
    let started = stack.push(ScopeModel::Iteration { name, elems, pos: 0 });
    assert(spec_run(tmpls, fmts, prog, stack, 0, Seq::empty(), f0) == spec_run(
        tmpls,
        fmts,
        prog,
        started,
        1,
        Seq::empty(),
        f1,
    ));
    assert(started =~= seq![
        ScopeModel::Object(root),
        ScopeModel::Iteration { name, elems, pos: 0 },
    ]);
    lemma_for_index_iterations(tmpls, fmts, path, name, root, elems, 0, Seq::empty(), f1);
    assert(Seq::<char>::empty() + indices_concat(elems.len() as int, 0) =~= indices_concat(
        elems.len() as int,
        0,
    ));
}

/// Whether the instruction's path (if it has one) is non-empty.
pub open spec fn instr_path_nonempty(i: InstructionModel) -> bool {
    match i {
        InstructionModel::Literal(_) => true,
        InstructionModel::Value(p) => p.len() > 0,
        InstructionModel::FormattedValue(p, _) => p.len() > 0,
        InstructionModel::Branch(p, _) => p.len() > 0,
        InstructionModel::PushContext(p) => p.len() > 0,
        InstructionModel::PushNamedContext(p, _) => p.len() > 0,
        InstructionModel::PushIterationContext(p, _) => p.len() > 0,
        InstructionModel::PopContext => true,
        InstructionModel::Iterate(_) => true,
        InstructionModel::Goto(_) => true,
        InstructionModel::Call(_, p) => p.len() > 0,
    }
}

/// Whether every instruction of the program addresses only non-empty paths.
pub open spec fn paths_nonempty(prog: Seq<InstructionModel>) -> bool {
    forall|i: int| 0 <= i < prog.len() ==> instr_path_nonempty(#[trigger] prog[i])
}

proof fn lemma_split_nonempty(s: Seq<char>, c: char)
    ensures
        split_on_char(s, c).len() > 0,
{
}

proof fn lemma_parse_path_nonempty(text: Seq<char>)
    ensures
        spec_parse_path(text) matches Ok(p) ==> p.len() > 0,
{
    lemma_split_nonempty(text, '.');
}

proof fn lemma_trim_last_preserves_paths(ins: Seq<InstructionModel>, doit: bool)
    requires
        paths_nonempty(ins),
    ensures
        paths_nonempty(apply_trim_last(ins, doit)),
{
    if doit && ins.len() > 0 && ins.last() is Literal {
        let out = trim_last_ws(ins);
        assert forall|i: int| 0 <= i < out.len() implies instr_path_nonempty(#[trigger] out[i]) by {
            if i < ins.len() - 1 {
                assert(out[i] == ins[i]);
            }
        }
    }
}

proof fn lemma_append_preserves_paths(ins: Seq<InstructionModel>, tail: Seq<InstructionModel>)
    requires
        paths_nonempty(ins),
        paths_nonempty(tail),
    ensures
        paths_nonempty(ins + tail),
{
    let out = ins + tail;
    assert forall|i: int| 0 <= i < out.len() implies instr_path_nonempty(#[trigger] out[i]) by {
        if i < ins.len() {
            assert(out[i] == ins[i]);
        } else {
            assert(out[i] == tail[i - ins.len()]);
        }
    }
}

proof fn lemma_close_branch_preserves_paths(
    ins: Seq<InstructionModel>,
    blocks: Seq<BlockModel>,
    target: int,
)
    requires
        paths_nonempty(ins),
    ensures
        spec_close_branch(ins, blocks, target) matches Ok(r) ==> paths_nonempty(r.0),
{
    if let Ok(r) = spec_close_branch(ins, blocks, target) {
        let idx = blocks.last()->Branch_0;
        assert(instr_path_nonempty(ins[idx]));
        assert forall|i: int| 0 <= i < r.0.len() implies instr_path_nonempty(
            #[trigger] r.0[i],
        ) by {
            if i != idx {
                assert(r.0[i] == ins[i]);
            }
        }
    }
}

proof fn lemma_close_for_preserves_paths(
    ins: Seq<InstructionModel>,
    blocks: Seq<BlockModel>,
    target: int,
)
    requires
        paths_nonempty(ins),
    ensures
        spec_close_for(ins, blocks, target) matches Ok(r) ==> paths_nonempty(r.0),
{
    if let Ok(r) = spec_close_for(ins, blocks, target) {
        let idx = blocks.last()->For_0;
        assert forall|i: int| 0 <= i < r.0.len() implies instr_path_nonempty(
            #[trigger] r.0[i],
        ) by {
            if i != idx {
                assert(r.0[i] == ins[i]);
            }
        }
    }
}

proof fn lemma_consume_value_path_nonempty(rem: Seq<char>)
    ensures
        spec_consume_value(rem) matches Ok(vt) ==> vt.path.len() > 0,
{
    if spec_consume_value(rem) matches Ok(vt) {
        match spec_consume_tag(rem, "}}"@) {
            Err(_) => {},
            Ok((tag, rem2)) => {
                let inner0 = crate::text::trim_spec(tag.subrange(2, tag.len() - 2));
                let trim_last = inner0.len() > 0 && inner0[0] == '-';
                let inner1 = if trim_last {
                    crate::text::trim_spec(inner0.drop_first())
                } else {
                    inner0
                };
                let trim_next = inner1.len() > 0 && inner1.last() == '-';
                let inner = if trim_next {
                    crate::text::trim_spec(inner1.drop_last())
                } else {
                    inner1
                };
                match crate::text::find_char_spec(inner, '|') {
                    Some(i) => {
                        lemma_parse_path_nonempty(crate::text::trim_spec(inner.take(i)));
                    },
                    None => {
                        lemma_parse_path_nonempty(inner);
                    },
                }
            },
        }
    }
}

proof fn lemma_dispatch_preserves_paths(
    st: CompileState,
    bt: BlockTag,
    ins1: Seq<InstructionModel>,
    tn: bool,
)
    requires
        paths_nonempty(ins1),
    ensures
        spec_dispatch_block(st, bt, ins1, tn) matches Ok(st2) ==> paths_nonempty(st2.ins),
{
    if spec_dispatch_block(st, bt, ins1, tn) matches Ok(st2) {
        lemma_parse_path_nonempty(bt.rest);
        if bt.discriminant == "if"@ {
            let path = spec_parse_path(bt.rest)->Ok_0;
            lemma_append_preserves_paths(ins1, seq![
                InstructionModel::Branch(path, crate::UNKNOWN as int),
            ]);
        } else if bt.discriminant == "else"@ {
            lemma_close_branch_preserves_paths(ins1, st.blocks, ins1.len() + 1int);
            let ins2 = spec_close_branch(ins1, st.blocks, ins1.len() + 1int)->Ok_0.0;
            lemma_append_preserves_paths(ins2, seq![
                InstructionModel::Goto(crate::UNKNOWN as int),
            ]);
        } else if bt.discriminant == "endif"@ {
            lemma_close_branch_preserves_paths(ins1, st.blocks, ins1.len() as int);
        } else if bt.discriminant == "with"@ {
            match spec_parse_with(bt.rest) {
                Ok((path, name)) => {
                    match crate::text::find_sub_spec(bt.rest, " as "@) {
                        Some(i) => {
                            lemma_parse_path_nonempty(crate::text::trim_spec(bt.rest.take(i)));
                        },
                        None => {},
                    }
                    let instr = match name {
                        Some(n) => InstructionModel::PushNamedContext(path, n),
                        None => InstructionModel::PushContext(path),
                    };
                    lemma_append_preserves_paths(ins1, seq![instr]);
                },
                Err(_) => {},
            }
        } else if bt.discriminant == "endwith"@ {
            lemma_append_preserves_paths(ins1, seq![InstructionModel::PopContext]);
        } else if bt.discriminant == "for"@ {
            match spec_parse_for(bt.rest) {
                Ok((path, name)) => {
                    match crate::text::find_sub_spec(bt.rest, " in "@) {
                        Some(i) => {
                            lemma_parse_path_nonempty(
                                crate::text::trim_spec(bt.rest.skip(i + " in "@.len())),
                            );
                        },
                        None => {},
                    }
                    let ins2 = ins1 + seq![InstructionModel::PushIterationContext(path, name)];
                    lemma_append_preserves_paths(ins1, seq![
                        InstructionModel::PushIterationContext(path, name),
                    ]);
                    lemma_append_preserves_paths(ins2, seq![
                        InstructionModel::Iterate(crate::UNKNOWN as int),
                    ]);
                },
                Err(_) => {},
            }
        } else if bt.discriminant == "endfor"@ {
            lemma_close_for_preserves_paths(ins1, st.blocks, ins1.len() + 1int);
            match spec_close_for(ins1, st.blocks, ins1.len() + 1int) {
                Ok((ins2, _, goto_target)) => {
                    lemma_append_preserves_paths(ins2, seq![
                        InstructionModel::Goto(goto_target),
                        InstructionModel::PopContext,
                    ]);
                },
                Err(_) => {},
            }
        } else if bt.discriminant == "call"@ {
            match spec_parse_call(bt.rest) {
                Ok((name, path)) => {
                    match crate::text::find_sub_spec(bt.rest, " with "@) {
                        Some(i) => {
                            lemma_parse_path_nonempty(
                                crate::text::trim_spec(bt.rest.skip(i + " with "@.len())),
                            );
                        },
                        None => {},
                    }
                    lemma_append_preserves_paths(ins1, seq![InstructionModel::Call(name, path)]);
                },
                Err(_) => {},
            }
        }
    }
}

proof fn lemma_step_preserves_paths(st: CompileState)
    requires
        paths_nonempty(st.ins),
    ensures
        spec_compile_step(st) matches Ok(st2) ==> paths_nonempty(st2.ins),
{
    if spec_compile_step(st) matches Ok(st2) {
        if starts2(st.rem, '{', '{') {
            match spec_consume_value(st.rem) {
                Ok(vt) => {
                    lemma_consume_value_path_nonempty(st.rem);
                    lemma_trim_last_preserves_paths(st.ins, vt.trim_last);
                    let instr = match vt.formatter {
                        Some(name) => InstructionModel::FormattedValue(vt.path, name),
                        None => InstructionModel::Value(vt.path),
                    };
                    lemma_append_preserves_paths(
                        apply_trim_last(st.ins, vt.trim_last),
                        seq![instr],
                    );
                },
                Err(_) => {},
            }
        } else if starts2(st.rem, '{', '#') {
            match crate::compiler::spec_consume_comment(st.rem) {
                Ok((tl, _, _)) => {
                    lemma_trim_last_preserves_paths(st.ins, tl);
                },
                Err(_) => {},
            }
        } else if starts2(st.rem, '{', '%') {
            match spec_consume_block(st.rem) {
                Ok(bt) => {
                    lemma_trim_last_preserves_paths(st.ins, bt.trim_last);
                    lemma_dispatch_preserves_paths(
                        st,
                        bt,
                        apply_trim_last(st.ins, bt.trim_last),
                        st.trim_next || bt.trim_next,
                    );
                },
                Err(_) => {},
            }
        } else if st.rem[0] == '{' {
        } else {
            let p = text_split_at(st.rem);
            if 0 < p <= st.rem.len() {
                let raw = st.rem.take(p);
                let lit = if st.trim_next {
                    crate::text::trim_start_spec(raw)
                } else {
                    raw
                };
                lemma_append_preserves_paths(st.ins, seq![InstructionModel::Literal(lit)]);
            }
        }
    }
}

proof fn lemma_compile_from_paths_nonempty(st: CompileState)
    requires
        paths_nonempty(st.ins),
    ensures
        spec_compile_from(st) matches Ok(prog) ==> paths_nonempty(prog),
    decreases st.rem.len(),
{
    if st.rem.len() == 0 {
    } else {
        match spec_compile_step(st) {
            Ok(st2) => {
                lemma_step_preserves_paths(st);
                if st2.rem.len() < st.rem.len() {
                    lemma_compile_from_paths_nonempty(st2);
                }
            },
            Err(_) => {},
        }
    }
}

/// Every instruction of a successfully compiled program addresses only
/// non-empty paths: the renderer's lookup is never legitimately handed an
/// empty path.
pub proof fn lemma_compiled_paths_nonempty(text: Seq<char>)
    ensures
        spec_compile(text) matches Ok(prog) ==> paths_nonempty(prog),
{
    let st = CompileState {
        rem: text,
        ins: Seq::<InstructionModel>::empty(),
        blocks: Seq::empty(),
        trim_next: false,
    };
    assert(paths_nonempty(st.ins));
    lemma_compile_from_paths_nonempty(st);
}

/// Whether the instruction's jump target (if it has one) lies within a
/// program of length `n` — possibly one past its end, where execution halts.
pub open spec fn instr_target_bounded(i: InstructionModel, n: int) -> bool {
    match i {
        InstructionModel::Branch(_, t) => 0 <= t <= n,
        InstructionModel::Goto(t) => 0 <= t <= n,
        InstructionModel::Iterate(t) => 0 <= t <= n,
        _ => true,
    }
}

/// Whether every jump target of the program lies within it: no backpatch
/// placeholder survives.
pub open spec fn targets_resolved(prog: Seq<InstructionModel>) -> bool {
    forall|j: int|
        0 <= j < prog.len() ==> instr_target_bounded(#[trigger] prog[j], prog.len() as int)
}

/// Whether some live block marker addresses instruction `j`.
pub open spec fn marker_at(blocks: Seq<BlockModel>, j: int) -> bool {
    exists|k: int|
        0 <= k < blocks.len() && ((#[trigger] blocks[k]) == BlockModel::Branch(j) || blocks[k]
            == BlockModel::For(j))
}

/// The backpatching invariant: mid-compilation, every jump instruction is
/// either already bounded or awaits patching through a live marker.
pub open spec fn targets_ok(ins: Seq<InstructionModel>, blocks: Seq<BlockModel>) -> bool {
    forall|j: int|
        0 <= j < ins.len() ==> instr_target_bounded(#[trigger] ins[j], ins.len() as int)
            || marker_at(blocks, j)
}

proof fn lemma_bounded_mono(i: InstructionModel, a: int, b: int)
    requires
        instr_target_bounded(i, a),
        a <= b,
    ensures
        instr_target_bounded(i, b),
{
}

/// Appending target-free instructions and possibly pushing a marker
/// preserves the invariant for the instructions already present.
proof fn lemma_targets_old_preserved(
    ins1: Seq<InstructionModel>,
    blocks1: Seq<BlockModel>,
    ins2: Seq<InstructionModel>,
    blocks2: Seq<BlockModel>,
    j: int,
)
    requires
        targets_ok(ins1, blocks1),
        0 <= j < ins1.len(),
        ins1.len() <= ins2.len(),
        ins2[j] == ins1[j],
        forall|k: int| 0 <= k < blocks1.len() ==> #[trigger] blocks2[k] == blocks1[k],
        blocks1.len() <= blocks2.len(),
    ensures
        instr_target_bounded(ins2[j], ins2.len() as int) || marker_at(blocks2, j),
{
    if instr_target_bounded(ins1[j], ins1.len() as int) {
        lemma_bounded_mono(ins1[j], ins1.len() as int, ins2.len() as int);
    } else {
        let k = choose|k: int|
            0 <= k < blocks1.len() && ((#[trigger] blocks1[k]) == BlockModel::Branch(j)
                || blocks1[k] == BlockModel::For(j));
        assert(blocks2[k] == blocks1[k]);
    }
}

/// Resolving a branch placeholder preserves the invariant: the popped
/// marker's instruction becomes bounded by the given target, and every other
/// marker survives the pop.
proof fn lemma_close_branch_targets(
    ins: Seq<InstructionModel>,
    blocks: Seq<BlockModel>,
    target: int,
)
    requires
        targets_ok(ins, blocks),
        0 <= target,
    ensures
        spec_close_branch(ins, blocks, target) matches Ok(r) ==> {
            let idx = blocks.last()->Branch_0;
            &&& r.1 == blocks.drop_last()
            &&& r.0.len() == ins.len()
            &&& instr_target_bounded(r.0[idx], target)
            &&& forall|j: int|
                0 <= j < ins.len() && j != idx ==> #[trigger] r.0[j] == ins[j] && (
                instr_target_bounded(ins[j], ins.len() as int) || marker_at(r.1, j))
        },
{
    if let Ok(r) = spec_close_branch(ins, blocks, target) {
        let idx = blocks.last()->Branch_0;
        assert forall|j: int| 0 <= j < ins.len() && j != idx implies #[trigger] r.0[j] == ins[j]
            && (instr_target_bounded(ins[j], ins.len() as int) || marker_at(r.1, j)) by {
            if !instr_target_bounded(ins[j], ins.len() as int) {
                let k = choose|k: int|
                    0 <= k < blocks.len() && ((#[trigger] blocks[k]) == BlockModel::Branch(j)
                        || blocks[k] == BlockModel::For(j));
                assert(blocks[k] != BlockModel::Branch(idx) ==> k < blocks.len() - 1 || blocks[k]
                    == blocks.last());
                if k == blocks.len() - 1 {
                    assert(blocks[k] == blocks.last());
                    assert(blocks.last() is Branch);
                    assert(blocks[k] == BlockModel::Branch(j) ==> j == idx);
                    assert(false);
                } else {
                    assert(r.1[k] == blocks[k]);
                    assert(marker_at(r.1, j));
                }
            }
        }
    }
}

/// Resolving an iteration placeholder preserves the invariant likewise.
proof fn lemma_close_for_targets(ins: Seq<InstructionModel>, blocks: Seq<BlockModel>, target: int)
    requires
        targets_ok(ins, blocks),
        0 <= target,
    ensures
        spec_close_for(ins, blocks, target) matches Ok(r) ==> {
            let idx = blocks.last()->For_0;
            &&& r.1 == blocks.drop_last()
            &&& r.0.len() == ins.len()
            &&& r.2 == idx
            &&& 0 <= idx < ins.len()
            &&& instr_target_bounded(r.0[idx], target)
            &&& forall|j: int|
                0 <= j < ins.len() && j != idx ==> #[trigger] r.0[j] == ins[j] && (
                instr_target_bounded(ins[j], ins.len() as int) || marker_at(r.1, j))
        },
{
    if let Ok(r) = spec_close_for(ins, blocks, target) {
        let idx = blocks.last()->For_0;
        assert forall|j: int| 0 <= j < ins.len() && j != idx implies #[trigger] r.0[j] == ins[j]
            && (instr_target_bounded(ins[j], ins.len() as int) || marker_at(r.1, j)) by {
            if !instr_target_bounded(ins[j], ins.len() as int) {
                let k = choose|k: int|
                    0 <= k < blocks.len() && ((#[trigger] blocks[k]) == BlockModel::Branch(j)
                        || blocks[k] == BlockModel::For(j));
                if k == blocks.len() - 1 {
                    assert(blocks[k] == blocks.last());
                    assert(blocks.last() is For);
                    assert(blocks[k] == BlockModel::For(j) ==> j == idx);
                    assert(false);
                } else {
                    assert(r.1[k] == blocks[k]);
                    assert(marker_at(r.1, j));
                }
            }
        }
    }
}

proof fn lemma_trim_last_preserves_targets(ins: Seq<InstructionModel>, blocks: Seq<BlockModel>, doit: bool)
    requires
        targets_ok(ins, blocks),
    ensures
        targets_ok(apply_trim_last(ins, doit), blocks),
{
    let out = apply_trim_last(ins, doit);
    assert(out.len() == ins.len());
    assert forall|j: int|
        0 <= j < out.len() implies instr_target_bounded(#[trigger] out[j], out.len() as int)
        || marker_at(blocks, j) by {
        if doit && ins.len() > 0 && ins.last() is Literal && j == ins.len() - 1 {
            assert(out[j] is Literal);
        } else {
            assert(out[j] == ins[j]);
        }
    }
}

proof fn lemma_dispatch_preserves_targets(
    st: CompileState,
    bt: BlockTag,
    ins1: Seq<InstructionModel>,
    tn: bool,
)
    requires
        targets_ok(ins1, st.blocks),
    ensures
        spec_dispatch_block(st, bt, ins1, tn) matches Ok(st2) ==> targets_ok(st2.ins, st2.blocks),
{
    if let Ok(st2) = spec_dispatch_block(st, bt, ins1, tn) {
        if bt.discriminant == "if"@ {
            let path = spec_parse_path(bt.rest)->Ok_0;
            let ins2 = ins1 + seq![InstructionModel::Branch(path, UNKNOWN as int)];
            let blocks2 = st.blocks.push(BlockModel::Branch(ins1.len() as int));
            assert forall|j: int|
                0 <= j < ins2.len() implies instr_target_bounded(
                #[trigger] ins2[j],
                ins2.len() as int,
            ) || marker_at(blocks2, j) by {
                if j < ins1.len() {
                    assert(ins2[j] == ins1[j]);
                    lemma_targets_old_preserved(ins1, st.blocks, ins2, blocks2, j);
                } else {
                    assert(blocks2[st.blocks.len() as int] == BlockModel::Branch(j));
                }
            }
        } else if bt.discriminant == "else"@ {
            lemma_close_branch_targets(ins1, st.blocks, ins1.len() + 1int);
            let r = spec_close_branch(ins1, st.blocks, ins1.len() + 1int)->Ok_0;
            let idx = st.blocks.last()->Branch_0;
            let ins3 = r.0 + seq![InstructionModel::Goto(UNKNOWN as int)];
            let blocks3 = r.1.push(BlockModel::Branch(r.0.len() as int));
            assert forall|j: int|
                0 <= j < ins3.len() implies instr_target_bounded(
                #[trigger] ins3[j],
                ins3.len() as int,
            ) || marker_at(blocks3, j) by {
                if j == r.0.len() {
                    assert(blocks3[r.1.len() as int] == BlockModel::Branch(j));
                } else if j == idx {
                    assert(ins3[j] == r.0[idx]);
                    lemma_bounded_mono(r.0[idx], ins1.len() + 1int, ins3.len() as int);
                } else {
                    assert(ins3[j] == ins1[j]);
                    if !instr_target_bounded(ins1[j], ins1.len() as int) {
                        let k = choose|k: int|
                            0 <= k < r.1.len() && ((#[trigger] r.1[k]) == BlockModel::Branch(j)
                                || r.1[k] == BlockModel::For(j));
                        assert(blocks3[k] == r.1[k]);
                        assert(marker_at(blocks3, j));
                    } else {
                        lemma_bounded_mono(ins1[j], ins1.len() as int, ins3.len() as int);
                    }
                }
            }
        } else if bt.discriminant == "endif"@ {
            lemma_close_branch_targets(ins1, st.blocks, ins1.len() as int);
            let r = spec_close_branch(ins1, st.blocks, ins1.len() as int)->Ok_0;
            let idx = st.blocks.last()->Branch_0;
            assert forall|j: int|
                0 <= j < r.0.len() implies instr_target_bounded(
                #[trigger] r.0[j],
                r.0.len() as int,
            ) || marker_at(r.1, j) by {
                if j != idx {
                    assert(r.0[j] == ins1[j]);
                }
            }
        } else if bt.discriminant == "with"@ {
            let ins2 = st2.ins;
            assert(ins2.len() == ins1.len() + 1);
            assert forall|j: int|
                0 <= j < ins2.len() implies instr_target_bounded(
                #[trigger] ins2[j],
                ins2.len() as int,
            ) || marker_at(st2.blocks, j) by {
                if j < ins1.len() {
                    assert(ins2[j] == ins1[j]);
                    lemma_targets_old_preserved(ins1, st.blocks, ins2, st2.blocks, j);
                } else {
                    assert(!(ins2[j] is Branch) && !(ins2[j] is Goto) && !(ins2[j] is Iterate));
                }
            }
        } else if bt.discriminant == "endwith"@ {
            let ins2 = ins1 + seq![InstructionModel::PopContext];
            let blocks2 = st.blocks.drop_last();
            assert forall|j: int|
                0 <= j < ins2.len() implies instr_target_bounded(
                #[trigger] ins2[j],
                ins2.len() as int,
            ) || marker_at(blocks2, j) by {
                if j < ins1.len() {
                    assert(ins2[j] == ins1[j]);
                    if !instr_target_bounded(ins1[j], ins1.len() as int) {
                        let k = choose|k: int|
                            0 <= k < st.blocks.len() && ((#[trigger] st.blocks[k])
                                == BlockModel::Branch(j) || st.blocks[k] == BlockModel::For(j));
                        if k == st.blocks.len() - 1 {
                            assert(st.blocks.last() is With);
                            assert(false);
                        } else {
                            assert(blocks2[k] == st.blocks[k]);
                            assert(marker_at(blocks2, j));
                        }
                    } else {
                        lemma_bounded_mono(ins1[j], ins1.len() as int, ins2.len() as int);
                    }
                }
            }
        } else if bt.discriminant == "for"@ {
            let path_name = spec_parse_for(bt.rest)->Ok_0;
            let ins2 = ins1 + seq![
                InstructionModel::PushIterationContext(path_name.0, path_name.1),
            ];
            let ins3 = ins2 + seq![InstructionModel::Iterate(UNKNOWN as int)];
            let blocks3 = st.blocks.push(BlockModel::For(ins2.len() as int));
            assert forall|j: int|
                0 <= j < ins3.len() implies instr_target_bounded(
                #[trigger] ins3[j],
                ins3.len() as int,
            ) || marker_at(blocks3, j) by {
                if j < ins1.len() {
                    assert(ins3[j] == ins1[j]);
                    lemma_targets_old_preserved(ins1, st.blocks, ins3, blocks3, j);
                } else if j == ins1.len() {
                    assert(ins3[j] == InstructionModel::PushIterationContext(
                        path_name.0,
                        path_name.1,
                    ));
                } else {
                    assert(blocks3[st.blocks.len() as int] == BlockModel::For(j));
                }
            }
        } else if bt.discriminant == "endfor"@ {
            lemma_close_for_targets(ins1, st.blocks, ins1.len() + 1int);
            let r = spec_close_for(ins1, st.blocks, ins1.len() + 1int)->Ok_0;
            let idx = st.blocks.last()->For_0;
            let ins3 = r.0 + seq![InstructionModel::Goto(r.2), InstructionModel::PopContext];
            assert forall|j: int|
                0 <= j < ins3.len() implies instr_target_bounded(
                #[trigger] ins3[j],
                ins3.len() as int,
            ) || marker_at(r.1, j) by {
                if j == r.0.len() {
                    assert(ins3[j] == InstructionModel::Goto(r.2));
                } else if j == r.0.len() + 1 {
                    assert(ins3[j] == InstructionModel::PopContext);
                } else if j == idx {
                    assert(ins3[j] == r.0[idx]);
                    lemma_bounded_mono(r.0[idx], ins1.len() + 1int, ins3.len() as int);
                } else {
                    assert(ins3[j] == ins1[j]);
                    if instr_target_bounded(ins1[j], ins1.len() as int) {
                        lemma_bounded_mono(ins1[j], ins1.len() as int, ins3.len() as int);
                    }
                }
            }
        } else if bt.discriminant == "call"@ {
            let name_path = spec_parse_call(bt.rest)->Ok_0;
            let ins2 = ins1 + seq![InstructionModel::Call(name_path.0, name_path.1)];
            assert forall|j: int|
                0 <= j < ins2.len() implies instr_target_bounded(
                #[trigger] ins2[j],
                ins2.len() as int,
            ) || marker_at(st.blocks, j) by {
                if j < ins1.len() {
                    assert(ins2[j] == ins1[j]);
                    lemma_targets_old_preserved(ins1, st.blocks, ins2, st.blocks, j);
                }
            }
        }
    }
}

proof fn lemma_step_preserves_targets(st: CompileState)
    requires
        targets_ok(st.ins, st.blocks),
    ensures
        spec_compile_step(st) matches Ok(st2) ==> targets_ok(st2.ins, st2.blocks),
{
    if let Ok(st2) = spec_compile_step(st) {
        if starts2(st.rem, '{', '{') {
            if let Ok(vt) = spec_consume_value(st.rem) {
                lemma_trim_last_preserves_targets(st.ins, st.blocks, vt.trim_last);
                let ins1 = apply_trim_last(st.ins, vt.trim_last);
                assert forall|j: int|
                    0 <= j < st2.ins.len() implies instr_target_bounded(
                    #[trigger] st2.ins[j],
                    st2.ins.len() as int,
                ) || marker_at(st2.blocks, j) by {
                    if j < ins1.len() {
                        assert(st2.ins[j] == ins1[j]);
                        lemma_targets_old_preserved(ins1, st.blocks, st2.ins, st2.blocks, j);
                    } else {
                        assert(!(st2.ins[j] is Branch) && !(st2.ins[j] is Goto) && !(st2.ins[j]
                            is Iterate));
                    }
                }
            }
        } else if starts2(st.rem, '{', '#') {
            if let Ok(t) = crate::compiler::spec_consume_comment(st.rem) {
                lemma_trim_last_preserves_targets(st.ins, st.blocks, t.0);
            }
        } else if starts2(st.rem, '{', '%') {
            if let Ok(bt) = spec_consume_block(st.rem) {
                lemma_trim_last_preserves_targets(st.ins, st.blocks, bt.trim_last);
                lemma_dispatch_preserves_targets(
                    st,
                    bt,
                    apply_trim_last(st.ins, bt.trim_last),
                    st.trim_next || bt.trim_next,
                );
            }
        } else if st.rem[0] == '{' {
        } else {
            let p = text_split_at(st.rem);
            if 0 < p <= st.rem.len() {
                assert forall|j: int|
                    0 <= j < st2.ins.len() implies instr_target_bounded(
                    #[trigger] st2.ins[j],
                    st2.ins.len() as int,
                ) || marker_at(st2.blocks, j) by {
                    if j < st.ins.len() {
                        assert(st2.ins[j] == st.ins[j]);
                        lemma_targets_old_preserved(st.ins, st.blocks, st2.ins, st2.blocks, j);
                    } else {
                        assert(st2.ins[j] is Literal);
                    }
                }
            }
        }
    }
}

proof fn lemma_compile_from_targets_resolved(st: CompileState)
    requires
        targets_ok(st.ins, st.blocks),
    ensures
        spec_compile_from(st) matches Ok(prog) ==> targets_resolved(prog),
    decreases st.rem.len(),
{
    if st.rem.len() == 0 {
        if st.blocks.len() == 0 {
            assert forall|j: int|
                0 <= j < st.ins.len() implies instr_target_bounded(
                #[trigger] st.ins[j],
                st.ins.len() as int,
            ) by {
                assert(!marker_at(st.blocks, j));
            }
        }
    } else {
        match spec_compile_step(st) {
            Ok(st2) => {
                lemma_step_preserves_targets(st);
                if st2.rem.len() < st.rem.len() {
                    lemma_compile_from_targets_resolved(st2);
                }
            },
            Err(_) => {},
        }
    }
}

/// Every jump target of a successfully compiled program is an absolute
/// instruction index within the program (or one past its end, where
/// execution halts): forward targets are all backpatched before a program
/// is returned, and a block still open at the end of the text — whose
/// placeholder could never be resolved — is a parse error instead. In
/// particular the backpatch sentinel, which exceeds any real program's
/// length, never survives compilation.
pub proof fn lemma_compiled_targets_resolved(text: Seq<char>)
    ensures
        spec_compile(text) matches Ok(prog) ==> targets_resolved(prog),
{
    let st = CompileState {
        rem: text,
        ins: Seq::<InstructionModel>::empty(),
        blocks: Seq::empty(),
        trim_next: false,
    };
    assert(targets_ok(st.ins, st.blocks));
    lemma_compile_from_targets_resolved(st);
}

} // verus!
