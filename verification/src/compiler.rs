//! The compiler: a single forward pass over the template source producing a
//! flat instruction sequence, backpatching forward jump targets through a
//! stack of open-block markers.
//!
//! The whole pass is specified by the mathematical function
//! [`spec_compile`]; the executable compiler is proved to return exactly what
//! that function says, which pins down every emitted instruction and every
//! resolved jump target.

use vstd::prelude::*;
use vstd::string::*;

use crate::error::{strings_view, ParseError, ParseErrorModel};
use crate::instruction::{
    copy_path, instructions_view, Instruction, InstructionModel, Path,
};
use crate::text::{
    ends_with_char, find2, find2_spec, find_char, find_char_spec, find_sub, find_sub_spec,
    is_space, is_space_char, lemma_find2, lemma_find_char, lemma_find_sub, starts2,
    starts_with_char, str_eq, trim_end_spec, trim_end_str, trim_spec, trim_start_spec,
    trim_start_str, trim_str,
};
use crate::UNKNOWN;

verus! {

/// An open-block marker: the kind of the block and, for `if`/`for`, the
/// index of the placeholder instruction whose target is patched on close.
#[derive(Debug, PartialEq, Eq)]
pub enum Block {
    Branch(usize),
    For(usize),
    With,
}

/// The mathematical model of an open-block marker.
pub enum BlockModel {
    Branch(int),
    For(int),
    With,
}

impl View for Block {
    type V = BlockModel;

    open spec fn view(&self) -> BlockModel {
        match self {
            Block::Branch(i) => BlockModel::Branch(*i as int),
            Block::For(i) => BlockModel::For(*i as int),
            Block::With => BlockModel::With,
        }
    }
}

pub open spec fn blocks_view(bs: Seq<Block>) -> Seq<BlockModel> {
    bs.map_values(|b: Block| b@)
}

/// The compiler's full state between steps: the text not yet consumed, the
/// instructions emitted so far, the open-block markers, and whether the next
/// literal must have its leading whitespace stripped.
#[verifier::ext_equal]
pub struct CompileState {
    pub rem: Seq<char>,
    pub ins: Seq<InstructionModel>,
    pub blocks: Seq<BlockModel>,
    pub trim_next: bool,
}

/// The first line of the text: everything up to (excluding) the first
/// newline, or all of it when there is none. A tag must close on the line
/// on which it opens.
pub open spec fn line_of(rem: Seq<char>) -> Seq<char> {
    match find_char_spec(rem, '\n') {
        Some(i) => rem.take(i),
        None => rem,
    }
}

/// Consuming one tag: the text up to and including the two-character closer,
/// which must occur on the first line and after the two-character opener
/// (so the tag is at least four characters long), and the text after it.
pub open spec fn spec_consume_tag(rem: Seq<char>, closer: Seq<char>) -> Result<
    (Seq<char>, Seq<char>),
    ParseErrorModel,
> {
    match find2_spec(line_of(rem).skip(2), closer[0], closer[1]) {
        Some(p) => Ok((rem.take(p + 4), rem.skip(p + 4))),
        None => Err(ParseErrorModel::UnclosedTag { closer }),
    }
}

/// The segments of `s` split on `c`; always at least one segment.
pub open spec fn split_on_char(s: Seq<char>, c: char) -> Seq<Seq<char>>
    decreases s.len(),
{
    match find_char_spec(s, c) {
        Some(i) => if 0 <= i < s.len() {
            seq![s.take(i)] + split_on_char(s.skip(i + 1), c)
        } else {
            seq![s]
        },
        None => seq![s],
    }
}

/// Parsing a dotted path: a leading `@` is only legal for the reserved
/// keyword `@index`; otherwise the text splits on `.`.
pub open spec fn spec_parse_path(text: Seq<char>) -> Result<Seq<Seq<char>>, ParseErrorModel> {
    if !(text.len() > 0 && text[0] == '@') {
        Ok(split_on_char(text, '.'))
    } else if text == "@index"@ {
        Ok(seq![text])
    } else {
        Err(ParseErrorModel::InvalidKeyword { keyword: text })
    }
}

/// The length of the leading run of non-whitespace characters.
pub open spec fn non_space_len(s: Seq<char>) -> int
    decreases s.len(),
{
    if s.len() > 0 && !is_space_char(s[0]) {
        1 + non_space_len(s.drop_first())
    } else {
        0
    }
}

pub proof fn lemma_non_space_len(s: Seq<char>, i: int)
    requires
        0 <= i <= s.len(),
        forall|j: int| 0 <= j < i ==> !is_space_char(s[j]),
        i < s.len() ==> is_space_char(s[i]),
    ensures
        non_space_len(s) == i,
    decreases i,
{
    if i == 0 {
    } else {
        lemma_non_space_len(s.drop_first(), i - 1);
    }
}

/// A parsed value tag `{{ ... }}`.
pub struct ValueTag {
    pub path: Seq<Seq<char>>,
    pub formatter: Option<Seq<char>>,
    pub trim_last: bool,
    pub trim_next: bool,
    pub rem: Seq<char>,
}

/// Parsing a value tag: the payload is trimmed, the optional leading and
/// trailing `-` markers are recorded and removed, and the rest optionally
/// splits on `|` into a path and a formatter name.
pub open spec fn spec_consume_value(rem: Seq<char>) -> Result<ValueTag, ParseErrorModel> {
    match spec_consume_tag(rem, "}}"@) {
        Err(e) => Err(e),
        Ok((tag, rem2)) => {
            let inner0 = trim_spec(tag.subrange(2, tag.len() - 2));
            let trim_last = inner0.len() > 0 && inner0[0] == '-';
            let inner1 = if trim_last {
                trim_spec(inner0.drop_first())
            } else {
                inner0
            };
            let trim_next = inner1.len() > 0 && inner1.last() == '-';
            let inner = if trim_next {
                trim_spec(inner1.drop_last())
            } else {
                inner1
            };
            match find_char_spec(inner, '|') {
                Some(i) => if 0 <= i < inner.len() {
                    match spec_parse_path(trim_spec(inner.take(i))) {
                        Ok(path) => Ok(ValueTag {
                            path,
                            formatter: Some(trim_spec(inner.skip(i + 1))),
                            trim_last,
                            trim_next,
                            rem: rem2,
                        }),
                        Err(e) => Err(e),
                    }
                } else {
                    Err(ParseErrorModel::Internal)
                },
                None => match spec_parse_path(inner) {
                    Ok(path) => Ok(ValueTag {
                        path,
                        formatter: None,
                        trim_last,
                        trim_next,
                        rem: rem2,
                    }),
                    Err(e) => Err(e),
                },
            }
        },
    }
}

/// A parsed block tag `{% ... %}`.
pub struct BlockTag {
    pub discriminant: Seq<char>,
    pub rest: Seq<char>,
    pub trim_last: bool,
    pub trim_next: bool,
    pub rem: Seq<char>,
}

/// Parsing a block tag: trim markers as for a value tag, then the first
/// whitespace-delimited token is the discriminant and the trimmed remainder
/// is the block-specific payload.
pub open spec fn spec_consume_block(rem: Seq<char>) -> Result<BlockTag, ParseErrorModel> {
    match spec_consume_tag(rem, "%}"@) {
        Err(e) => Err(e),
        Ok((tag, rem2)) => {
            let block0 = trim_spec(tag.subrange(2, tag.len() - 2));
            let trim_last = block0.len() > 0 && block0[0] == '-';
            let block1 = if trim_last {
                trim_spec(block0.drop_first())
            } else {
                block0
            };
            let trim_next = block1.len() > 0 && block1.last() == '-';
            let block = if trim_next {
                trim_spec(block1.drop_last())
            } else {
                block1
            };
            let k = non_space_len(block);
            Ok(BlockTag {
                discriminant: block.take(k),
                rest: trim_spec(block.skip(k)),
                trim_last,
                trim_next,
                rem: rem2,
            })
        },
    }
}

/// A comment tag `{# ... #}`: only its trim markers matter.
pub open spec fn spec_consume_comment(rem: Seq<char>) -> Result<
    (bool, bool, Seq<char>),
    ParseErrorModel,
> {
    match spec_consume_tag(rem, "#}"@) {
        Err(e) => Err(e),
        Ok((tag, rem2)) => {
            let comment = trim_spec(tag.subrange(2, tag.len() - 2));
            let trim_last = comment.len() > 0 && comment[0] == '-';
            let trim_next = comment.len() > 0 && comment.last() == '-';
            Ok((trim_last, trim_next, rem2))
        },
    }
}

/// Parsing a `with` payload: `path` or `path as name`.
pub open spec fn spec_parse_with(text: Seq<char>) -> Result<
    (Seq<Seq<char>>, Option<Seq<char>>),
    ParseErrorModel,
> {
    match find_sub_spec(text, " as "@) {
        Some(i) => match spec_parse_path(trim_spec(text.take(i))) {
            Ok(path) => Ok((path, Some(trim_spec(text.skip(i + " as "@.len()))))),
            Err(e) => Err(e),
        },
        None => match spec_parse_path(text) {
            Ok(path) => Ok((path, None)),
            Err(e) => Err(e),
        },
    }
}

/// Parsing a `for` payload: `name in path`; the keyword is required.
pub open spec fn spec_parse_for(text: Seq<char>) -> Result<
    (Seq<Seq<char>>, Seq<char>),
    ParseErrorModel,
> {
    match find_sub_spec(text, " in "@) {
        Some(i) => match spec_parse_path(trim_spec(text.skip(i + " in "@.len()))) {
            Ok(path) => Ok((path, trim_spec(text.take(i)))),
            Err(e) => Err(e),
        },
        None => Err(ParseErrorModel::MalformedFor { text }),
    }
}

/// Parsing a `call` payload: `name with path`; the keyword is required.
pub open spec fn spec_parse_call(text: Seq<char>) -> Result<
    (Seq<char>, Seq<Seq<char>>),
    ParseErrorModel,
> {
    match find_sub_spec(text, " with "@) {
        Some(i) => match spec_parse_path(trim_spec(text.skip(i + " with "@.len()))) {
            Ok(path) => Ok((trim_spec(text.take(i)), path)),
            Err(e) => Err(e),
        },
        None => Err(ParseErrorModel::MalformedCall { text }),
    }
}

/// Right-trims the trailing literal instruction in place, if the last
/// emitted instruction is a literal (the effect of a leading `-` marker).
pub open spec fn trim_last_ws(ins: Seq<InstructionModel>) -> Seq<InstructionModel> {
    if ins.len() > 0 && ins.last() is Literal {
        ins.update(ins.len() - 1, InstructionModel::Literal(trim_end_spec(ins.last()->Literal_0)))
    } else {
        ins
    }
}

pub open spec fn apply_trim_last(ins: Seq<InstructionModel>, doit: bool) -> Seq<InstructionModel> {
    if doit {
        trim_last_ws(ins)
    } else {
        ins
    }
}

/// Closing an `if` arm (at `else` or `endif`): the top marker must be a
/// branch marker, and the placeholder it addresses (a `Branch` or a `Goto`)
/// has its target resolved to `new_target`.
pub open spec fn spec_close_branch(
    ins: Seq<InstructionModel>,
    blocks: Seq<BlockModel>,
    new_target: int,
) -> Result<(Seq<InstructionModel>, Seq<BlockModel>), ParseErrorModel> {
    if blocks.len() > 0 && blocks.last() is Branch {
        let idx = blocks.last()->Branch_0;
        if 0 <= idx < ins.len() {
            match ins[idx] {
                InstructionModel::Branch(path, _) => Ok(
                    (ins.update(idx, InstructionModel::Branch(path, new_target)), blocks.drop_last()),
                ),
                InstructionModel::Goto(_) => Ok(
                    (ins.update(idx, InstructionModel::Goto(new_target)), blocks.drop_last()),
                ),
                _ => Err(ParseErrorModel::Internal),
            }
        } else {
            Err(ParseErrorModel::Internal)
        }
    } else {
        Err(ParseErrorModel::MismatchedEndIf)
    }
}

/// Closing a `for` block: the top marker must be a for marker; the
/// `Iterate` placeholder it addresses has its target resolved to
/// `new_target`, and the marker's index is returned for the closing `Goto`.
pub open spec fn spec_close_for(
    ins: Seq<InstructionModel>,
    blocks: Seq<BlockModel>,
    new_target: int,
) -> Result<(Seq<InstructionModel>, Seq<BlockModel>, int), ParseErrorModel> {
    if blocks.len() > 0 && blocks.last() is For {
        let idx = blocks.last()->For_0;
        if 0 <= idx < ins.len() {
            match ins[idx] {
                InstructionModel::Iterate(_) => Ok(
                    (
                        ins.update(idx, InstructionModel::Iterate(new_target)),
                        blocks.drop_last(),
                        idx,
                    ),
                ),
                _ => Err(ParseErrorModel::Internal),
            }
        } else {
            Err(ParseErrorModel::Internal)
        }
    } else {
        Err(ParseErrorModel::MismatchedEndFor)
    }
}

/// Where the next literal run ends: at the first `{`, or at the end of the
/// text.
pub open spec fn text_split_at(rem: Seq<char>) -> int {
    match find_char_spec(rem, '{') {
        Some(i) => i,
        None => rem.len() as int,
    }
}

/// One compilation step on a non-empty remainder: consume one tag or one
/// literal run and produce the successor state.
pub open spec fn spec_compile_step(st: CompileState) -> Result<CompileState, ParseErrorModel> {
    if starts2(st.rem, '{', '{') {
        match spec_consume_value(st.rem) {
            Err(e) => Err(e),
            Ok(vt) => {
                let instr = match vt.formatter {
                    Some(name) => InstructionModel::FormattedValue(vt.path, name),
                    None => InstructionModel::Value(vt.path),
                };
                Ok(CompileState {
                    rem: vt.rem,
                    ins: apply_trim_last(st.ins, vt.trim_last) + seq![instr],
                    blocks: st.blocks,
                    trim_next: st.trim_next || vt.trim_next,
                })
            },
        }
    } else if starts2(st.rem, '{', '#') {
        match spec_consume_comment(st.rem) {
            Err(e) => Err(e),
            Ok((trim_last, trim_next, rem2)) => Ok(CompileState {
                rem: rem2,
                ins: apply_trim_last(st.ins, trim_last),
                blocks: st.blocks,
                trim_next: st.trim_next || trim_next,
            }),
        }
    } else if starts2(st.rem, '{', '%') {
        match spec_consume_block(st.rem) {
            Err(e) => Err(e),
            Ok(bt) => {
                let ins1 = apply_trim_last(st.ins, bt.trim_last);
                let tn = st.trim_next || bt.trim_next;
                spec_dispatch_block(st, bt, ins1, tn)
            },
        }
    } else if st.rem[0] == '{' {
        Err(ParseErrorModel::UnexpectedCharacter)
    } else {
        let p = text_split_at(st.rem);
        if 0 < p <= st.rem.len() {
            let raw = st.rem.take(p);
            let lit = if st.trim_next {
                trim_start_spec(raw)
            } else {
                raw
            };
            Ok(CompileState {
                rem: st.rem.skip(p),
                ins: st.ins + seq![InstructionModel::Literal(lit)],
                blocks: st.blocks,
                trim_next: false,
            })
        } else {
            Err(ParseErrorModel::Internal)
        }
    }
}

/// The effect of one block tag on the compiler state: emit this block's
/// instructions and maintain the open-block marker stack.
pub open spec fn spec_dispatch_block(
    st: CompileState,
    bt: BlockTag,
    ins1: Seq<InstructionModel>,
    tn: bool,
) -> Result<CompileState, ParseErrorModel> {
    if bt.discriminant == "if"@ {
        match spec_parse_path(bt.rest) {
            Ok(path) => Ok(CompileState {
                rem: bt.rem,
                ins: ins1 + seq![InstructionModel::Branch(path, UNKNOWN as int)],
                blocks: st.blocks.push(BlockModel::Branch(ins1.len() as int)),
                trim_next: tn,
            }),
            Err(e) => Err(e),
        }
    } else if bt.discriminant == "else"@ {
        if bt.rest.len() != 0 {
            Err(ParseErrorModel::UnexpectedText { text: bt.rest })
        } else {
            match spec_close_branch(ins1, st.blocks, ins1.len() + 1int) {
                Ok((ins2, blocks2)) => Ok(CompileState {
                    rem: bt.rem,
                    ins: ins2 + seq![InstructionModel::Goto(UNKNOWN as int)],
                    blocks: blocks2.push(BlockModel::Branch(ins2.len() as int)),
                    trim_next: tn,
                }),
                Err(e) => Err(e),
            }
        }
    } else if bt.discriminant == "endif"@ {
        if bt.rest.len() != 0 {
            Err(ParseErrorModel::UnexpectedText { text: bt.rest })
        } else {
            match spec_close_branch(ins1, st.blocks, ins1.len() as int) {
                Ok((ins2, blocks2)) => Ok(CompileState {
                    rem: bt.rem,
                    ins: ins2,
                    blocks: blocks2,
                    trim_next: tn,
                }),
                Err(e) => Err(e),
            }
        }
    } else if bt.discriminant == "with"@ {
        match spec_parse_with(bt.rest) {
            Ok((path, name)) => {
                let instr = match name {
                    Some(n) => InstructionModel::PushNamedContext(path, n),
                    None => InstructionModel::PushContext(path),
                };
                Ok(CompileState {
                    rem: bt.rem,
                    ins: ins1 + seq![instr],
                    blocks: st.blocks.push(BlockModel::With),
                    trim_next: tn,
                })
            },
            Err(e) => Err(e),
        }
    } else if bt.discriminant == "endwith"@ {
        if bt.rest.len() != 0 {
            Err(ParseErrorModel::UnexpectedText { text: bt.rest })
        } else if st.blocks.len() > 0 && st.blocks.last() is With {
            Ok(CompileState {
                rem: bt.rem,
                ins: ins1 + seq![InstructionModel::PopContext],
                blocks: st.blocks.drop_last(),
                trim_next: tn,
            })
        } else {
            Err(ParseErrorModel::MismatchedEndWith)
        }
    } else if bt.discriminant == "for"@ {
        match spec_parse_for(bt.rest) {
            Ok((path, name)) => {
                let ins2 = ins1 + seq![InstructionModel::PushIterationContext(path, name)];
                Ok(CompileState {
                    rem: bt.rem,
                    ins: ins2 + seq![InstructionModel::Iterate(UNKNOWN as int)],
                    blocks: st.blocks.push(BlockModel::For(ins2.len() as int)),
                    trim_next: tn,
                })
            },
            Err(e) => Err(e),
        }
    } else if bt.discriminant == "endfor"@ {
        if bt.rest.len() != 0 {
            Err(ParseErrorModel::UnexpectedText { text: bt.rest })
        } else {
            match spec_close_for(ins1, st.blocks, ins1.len() + 1int) {
                Ok((ins2, blocks2, goto_target)) => Ok(CompileState {
                    rem: bt.rem,
                    ins: ins2 + seq![
                        InstructionModel::Goto(goto_target),
                        InstructionModel::PopContext,
                    ],
                    blocks: blocks2,
                    trim_next: tn,
                }),
                Err(e) => Err(e),
            }
        }
    } else if bt.discriminant == "call"@ {
        match spec_parse_call(bt.rest) {
            Ok((name, path)) => Ok(CompileState {
                rem: bt.rem,
                ins: ins1 + seq![InstructionModel::Call(name, path)],
                blocks: st.blocks,
                trim_next: tn,
            }),
            Err(e) => Err(e),
        }
    } else {
        Err(ParseErrorModel::UnknownBlock { name: bt.discriminant })
    }
}

/// Compilation from a state: stepping until the remainder is exhausted. A
/// block still open at the end of the text is a parse error, so no forward
/// jump target is ever left unresolved in a successfully compiled program.
/// A step that fails to consume text cannot arise; the internal error keeps
/// the function total.
pub open spec fn spec_compile_from(st: CompileState) -> Result<Seq<InstructionModel>, ParseErrorModel>
    decreases st.rem.len(),
{
    if st.rem.len() == 0 {
        if st.blocks.len() == 0 {
            Ok(st.ins)
        } else {
            Err(ParseErrorModel::UnclosedBlock)
        }
    } else {
        match spec_compile_step(st) {
            Ok(st2) => if st2.rem.len() < st.rem.len() {
                spec_compile_from(st2)
            } else {
                Err(ParseErrorModel::Internal)
            },
            Err(e) => Err(e),
        }
    }
}

/// The whole compilation pass over a source text.
pub open spec fn spec_compile(text: Seq<char>) -> Result<Seq<InstructionModel>, ParseErrorModel> {
    spec_compile_from(
        CompileState { rem: text, ins: Seq::empty(), blocks: Seq::empty(), trim_next: false },
    )
}


/// Splits `s` on `c`, producing owned segments (always at least one).
pub fn split_str(s: &str, c: char) -> (r: Vec<String>)
    ensures
        strings_view(r@) == split_on_char(s@, c),
{
    let mut out: Vec<String> = Vec::new();
    let mut rest: &str = s;
    proof {
        assert(strings_view(out@) + split_on_char(rest@, c) =~= split_on_char(s@, c));
    }
    loop
        invariant
            strings_view(out@) + split_on_char(rest@, c) == split_on_char(s@, c),
        decreases rest@.len(),
    {
        let n = rest.unicode_len();
        match find_char(rest, c) {
            Some(i) => {
                proof {
                    lemma_find_char(rest@, c);
                }
                let ghost prev_out = out@;
                let ghost prev_rest = rest@;
                let piece = rest.substring_char(0, i).to_owned();
                out.push(piece);
                rest = rest.substring_char(i + 1, n);
                proof {
                    assert(piece@ =~= prev_rest.take(i as int));
                    assert(rest@ =~= prev_rest.skip(i + 1));
                    assert(split_on_char(prev_rest, c) == seq![prev_rest.take(i as int)]
                        + split_on_char(prev_rest.skip(i + 1), c));
                    assert(strings_view(out@) =~= strings_view(prev_out) + seq![piece@]);
                    assert(strings_view(out@) + split_on_char(rest@, c) =~= strings_view(prev_out)
                        + split_on_char(prev_rest, c));
                }
            },
            None => {
                let ghost prev_out = out@;
                out.push(rest.to_owned());
                proof {
                    assert(split_on_char(rest@, c) == seq![rest@]);
                    assert(strings_view(out@) =~= strings_view(prev_out) + seq![rest@]);
                    assert(strings_view(out@) =~= split_on_char(s@, c));
                }
                return out;
            },
        }
    }
}

/// Parses a dotted path: `@` may only begin the reserved keyword `@index`.
pub fn parse_path(text: &str) -> (r: Result<Path, ParseError>)
    ensures
        match r {
            Ok(path) => spec_parse_path(text@) == Ok::<_, ParseErrorModel>(strings_view(path@)),
            Err(e) => spec_parse_path(text@) == Err::<Seq<Seq<char>>, _>(e@),
        },
{
    if !starts_with_char(text, '@') {
        Ok(split_str(text, '.'))
    } else if str_eq(text, "@index") {
        let mut p: Path = Vec::new();
        p.push(text.to_owned());
        proof {
            assert(strings_view(p@) =~= seq![text@]);
        }
        Ok(p)
    } else {
        Err(ParseError::InvalidKeyword { keyword: text.to_owned() })
    }
}

/// The compiler itself: the source text, a cursor into it, the instructions
/// emitted so far, the open-block marker stack, and the pending
/// strip-leading-whitespace flag.
pub struct TemplateCompiler {
    source: String,
    pos: usize,
    instructions: Vec<Instruction>,
    block_stack: Vec<Block>,
    trim_next: bool,
}

impl TemplateCompiler {
    /// The cursor never passes the end of the source.
    pub closed spec fn wf(&self) -> bool {
        self.pos <= self.source@.len()
    }

    /// The text not yet consumed.
    pub closed spec fn rem(&self) -> Seq<char> {
        self.source@.skip(self.pos as int)
    }

    /// The instruction count never passes the cursor: each consumed source
    /// character yields at most one instruction.
    pub closed spec fn bounded(&self) -> bool {
        self.instructions@.len() <= self.pos
    }

    /// The compiler's state as the specification sees it.
    pub closed spec fn state(&self) -> CompileState {
        CompileState {
            rem: self.rem(),
            ins: instructions_view(self.instructions@),
            blocks: blocks_view(self.block_stack@),
            trim_next: self.trim_next,
        }
    }

    pub fn new(text: &str) -> (r: TemplateCompiler)
        ensures
            r.wf(),
            r.bounded(),
            r.state() == (CompileState {
                rem: text@,
                ins: Seq::<InstructionModel>::empty(),
                blocks: Seq::<BlockModel>::empty(),
                trim_next: false,
            }),
    {
        let r = TemplateCompiler {
            source: text.to_owned(),
            pos: 0,
            instructions: Vec::new(),
            block_stack: Vec::new(),
            trim_next: false,
        };
        proof {
            assert(r.rem() =~= text@);
            assert(instructions_view(r.instructions@) =~= Seq::<InstructionModel>::empty());
            assert(blocks_view(r.block_stack@) =~= Seq::<BlockModel>::empty());
        }
        r
    }

    /// Whether the unconsumed text starts with the given character.
    fn peek(&self, c: char) -> (r: bool)
        requires
            self.wf(),
        ensures
            r == (self.rem().len() > 0 && self.rem()[0] == c),
    {
        let n = self.source.as_str().unicode_len();
        n - self.pos > 0 && self.source.as_str().get_char(self.pos) == c
    }

    /// Whether the unconsumed text starts with the given two characters.
    fn peek2(&self, c0: char, c1: char) -> (r: bool)
        requires
            self.wf(),
        ensures
            r == starts2(self.rem(), c0, c1),
    {
        let n = self.source.as_str().unicode_len();
        n - self.pos >= 2 && self.source.as_str().get_char(self.pos) == c0
            && self.source.as_str().get_char(self.pos + 1) == c1
    }

    /// Consumes one tag: everything up to and including `expected_close`,
    /// which must occur on the current line.
    fn consume_tag(&mut self, expected_close: &str) -> (r: Result<String, ParseError>)
        requires
            old(self).wf(),
            expected_close@.len() == 2,
            old(self).rem().len() >= 2,
            old(self).rem()[0] != '\n',
            old(self).rem()[1] != '\n',
        ensures
            final(self).wf(),
            final(self).source == old(self).source,
            final(self).instructions == old(self).instructions,
            final(self).block_stack == old(self).block_stack,
            final(self).trim_next == old(self).trim_next,
            match r {
                Ok(tag) => {
                    &&& spec_consume_tag(old(self).rem(), expected_close@) == Ok::<
                        _,
                        ParseErrorModel,
                    >((tag@, final(self).rem()))
                    &&& tag@.len() >= 4
                    &&& tag@ == old(self).rem().take(tag@.len() as int)
                    &&& tag@[tag@.len() - 2] == expected_close@[0]
                    &&& tag@[tag@.len() - 1] == expected_close@[1]
                    &&& final(self).rem().len() + tag@.len() == old(self).rem().len()
                    &&& old(self).pos + tag@.len() == final(self).pos
                },
                Err(e) => {
                    &&& spec_consume_tag(old(self).rem(), expected_close@) == Err::<
                        (Seq<char>, Seq<char>),
                        _,
                    >(e@)
                    &&& final(self).pos == old(self).pos
                },
            },
    {
        let n = self.source.as_str().unicode_len();
        let rem_s: &str = self.source.as_str().substring_char(self.pos, n);
        proof {
            assert(rem_s@ =~= self.rem());
        }
        let rn = rem_s.unicode_len();
        let line_end = match find_char(rem_s, '\n') {
            Some(i) => {
                proof {
                    lemma_find_char(rem_s@, '\n');
                }
                i
            },
            None => rn,
        };
        proof {
            lemma_find_char(rem_s@, '\n');
            assert(line_end >= 2);
        }
        let body: &str = rem_s.substring_char(2, line_end);
        proof {
            assert(rem_s@.subrange(0, line_end as int) =~= line_of(self.rem()));
            assert(body@ =~= line_of(self.rem()).skip(2));
        }
        let c0 = expected_close.get_char(0);
        let c1 = expected_close.get_char(1);
        match find2(body, c0, c1) {
            Some(p) => {
                proof {
                    lemma_find2(body@, c0, c1);
                    assert(line_end <= rem_s@.len());
                }
                let tag_s: &str = rem_s.substring_char(0, p + 4);
                let tag: String = tag_s.to_owned();
                proof {
                    assert(tag@ =~= old(self).rem().take(p + 4));
                }
                self.pos = self.pos + (p + 4);
                proof {
                    assert(self.rem() =~= old(self).rem().skip(p + 4));
                }
                Ok(tag)
            },
            None => Err(ParseError::UnclosedTag { closer: expected_close.to_owned() }),
        }
    }

    /// Consumes the literal run up to the next `{` or the end of the text.
    fn consume_text(&mut self) -> (r: String)
        requires
            old(self).wf(),
            old(self).rem().len() > 0,
            old(self).rem()[0] != '{',
        ensures
            final(self).wf(),
            final(self).source == old(self).source,
            final(self).instructions == old(self).instructions,
            final(self).block_stack == old(self).block_stack,
            final(self).trim_next == old(self).trim_next,
            ({
                let p = text_split_at(old(self).rem());
                &&& 0 < p <= old(self).rem().len()
                &&& r@ == old(self).rem().take(p)
                &&& final(self).rem() == old(self).rem().skip(p)
                &&& final(self).pos == old(self).pos + p
            }),
    {
        let n = self.source.as_str().unicode_len();
        let rem_s: &str = self.source.as_str().substring_char(self.pos, n);
        proof {
            assert(rem_s@ =~= self.rem());
            lemma_find_char(rem_s@, '{');
        }
        let rn = rem_s.unicode_len();
        let p = match find_char(rem_s, '{') {
            Some(i) => i,
            None => rn,
        };
        let text: String = rem_s.substring_char(0, p).to_owned();
        proof {
            assert(text@ =~= old(self).rem().take(p as int));
        }
        self.pos = self.pos + p;
        proof {
            assert(self.rem() =~= old(self).rem().skip(p as int));
        }
        text
    }

    /// Right-trims the last literal instruction in place, if the last
    /// emitted instruction is a literal: the effect of a leading `-` marker.
    fn trim_last_whitespace(&mut self)
        ensures
            final(self).source == old(self).source,
            final(self).pos == old(self).pos,
            final(self).block_stack == old(self).block_stack,
            final(self).trim_next == old(self).trim_next,
            instructions_view(final(self).instructions@) == trim_last_ws(
                instructions_view(old(self).instructions@),
            ),
    {
        let n = self.instructions.len();
        if n > 0 {
            let replacement: Option<Instruction> = match &self.instructions[n - 1] {
                Instruction::Literal(text) => Some(
                    Instruction::Literal(trim_end_str(text.as_str()).to_owned()),
                ),
                _ => None,
            };
            match replacement {
                Some(ni) => {
                    self.instructions[n - 1] = ni;
                    proof {
                        assert(instructions_view(self.instructions@) =~= trim_last_ws(
                            instructions_view(old(self).instructions@),
                        ));
                    }
                },
                None => {
                    proof {
                        assert(instructions_view(self.instructions@) =~= trim_last_ws(
                            instructions_view(old(self).instructions@),
                        ));
                    }
                },
            }
        } else {
            proof {
                assert(instructions_view(self.instructions@) =~= trim_last_ws(
                    instructions_view(old(self).instructions@),
                ));
            }
        }
    }

    /// Arms the pending flag: the next literal will be left-trimmed.
    fn trim_next_whitespace(&mut self)
        ensures
            final(self).source == old(self).source,
            final(self).pos == old(self).pos,
            final(self).instructions == old(self).instructions,
            final(self).block_stack == old(self).block_stack,
            final(self).trim_next == true,
    {
        self.trim_next = true;
    }

    /// Fails with an unexpected-text error unless the payload is empty.
    fn expect_empty(&self, text: &str) -> (r: Result<(), ParseError>)
        ensures
            match r {
                Ok(_) => text@.len() == 0,
                Err(e) => text@.len() != 0 && e@ == (ParseErrorModel::UnexpectedText {
                    text: text@,
                }),
            },
    {
        if text.unicode_len() == 0 {
            Ok(())
        } else {
            Err(ParseError::UnexpectedText { text: text.to_owned() })
        }
    }

    /// Resolves the branch placeholder addressed by the top marker (which
    /// must be a branch marker) to `new_target`.
    fn close_branch(&mut self, new_target: usize) -> (r: Result<(), ParseError>)
        ensures
            final(self).source == old(self).source,
            final(self).pos == old(self).pos,
            final(self).trim_next == old(self).trim_next,
            match r {
                Ok(_) => spec_close_branch(
                    instructions_view(old(self).instructions@),
                    blocks_view(old(self).block_stack@),
                    new_target as int,
                ) == Ok::<_, ParseErrorModel>(
                    (
                        instructions_view(final(self).instructions@),
                        blocks_view(final(self).block_stack@),
                    ),
                ),
                Err(e) => spec_close_branch(
                    instructions_view(old(self).instructions@),
                    blocks_view(old(self).block_stack@),
                    new_target as int,
                ) == Err::<(Seq<InstructionModel>, Seq<BlockModel>), _>(e@),
            },
    {
        if self.block_stack.len() == 0 {
            return Err(ParseError::MismatchedEndIf);
        }
        let popped = self.block_stack.pop();
        proof {
            assert(blocks_view(self.block_stack@) =~= blocks_view(
                old(self).block_stack@,
            ).drop_last());
        }
        match popped {
            Some(Block::Branch(index)) => {
                if index < self.instructions.len() {
                    let replacement: Option<Instruction> = match &self.instructions[index] {
                        Instruction::Branch(path, _) => Some(
                            Instruction::Branch(copy_path(path), new_target),
                        ),
                        Instruction::Goto(_) => Some(Instruction::Goto(new_target)),
                        _ => None,
                    };
                    match replacement {
                        Some(ni) => {
                            self.instructions[index] = ni;
                            proof {
                                assert(instructions_view(self.instructions@) =~= instructions_view(
                                    old(self).instructions@,
                                ).update(index as int, ni@));
                            }
                            Ok(())
                        },
                        None => Err(ParseError::Internal),
                    }
                } else {
                    Err(ParseError::Internal)
                }
            },
            _ => Err(ParseError::MismatchedEndIf),
        }
    }

    /// Resolves the `Iterate` placeholder addressed by the top marker (which
    /// must be a for marker) to `new_target`, returning the placeholder's
    /// index for the closing `Goto`.
    fn close_for(&mut self, new_target: usize) -> (r: Result<usize, ParseError>)
        ensures
            final(self).source == old(self).source,
            final(self).pos == old(self).pos,
            final(self).trim_next == old(self).trim_next,
            match r {
                Ok(idx) => spec_close_for(
                    instructions_view(old(self).instructions@),
                    blocks_view(old(self).block_stack@),
                    new_target as int,
                ) == Ok::<_, ParseErrorModel>(
                    (
                        instructions_view(final(self).instructions@),
                        blocks_view(final(self).block_stack@),
                        idx as int,
                    ),
                ),
                Err(e) => spec_close_for(
                    instructions_view(old(self).instructions@),
                    blocks_view(old(self).block_stack@),
                    new_target as int,
                ) == Err::<(Seq<InstructionModel>, Seq<BlockModel>, int), _>(e@),
            },
    {
        if self.block_stack.len() == 0 {
            return Err(ParseError::MismatchedEndFor);
        }
        let popped = self.block_stack.pop();
        proof {
            assert(blocks_view(self.block_stack@) =~= blocks_view(
                old(self).block_stack@,
            ).drop_last());
        }
        match popped {
            Some(Block::For(index)) => {
                if index < self.instructions.len() {
                    let is_iterate = match &self.instructions[index] {
                        Instruction::Iterate(_) => true,
                        _ => false,
                    };
                    if is_iterate {
                        self.instructions[index] = Instruction::Iterate(new_target);
                        proof {
                            assert(instructions_view(self.instructions@) =~= instructions_view(
                                old(self).instructions@,
                            ).update(index as int, InstructionModel::Iterate(new_target as int)));
                        }
                        Ok(index)
                    } else {
                        Err(ParseError::Internal)
                    }
                } else {
                    Err(ParseError::Internal)
                }
            },
            _ => Err(ParseError::MismatchedEndFor),
        }
    }

    /// Parses one `{{ ... }}` value tag: applies its whitespace-trim markers
    /// and returns the path and the optional formatter name.
    fn consume_value(&mut self) -> (r: Result<(Path, Option<String>), ParseError>)
        requires
            old(self).wf(),
            starts2(old(self).rem(), '{', '{'),
        ensures
            final(self).wf(),
            final(self).source == old(self).source,
            final(self).block_stack == old(self).block_stack,
            match r {
                Ok(pn) => spec_consume_value(old(self).rem()) matches Ok(vt) && {
                    &&& vt.path == strings_view(pn.0@)
                    &&& match pn.1 {
                        Some(name) => vt.formatter == Some(name@),
                        None => vt.formatter is None,
                    }
                    &&& final(self).rem() == vt.rem
                    &&& instructions_view(final(self).instructions@) == apply_trim_last(
                        instructions_view(old(self).instructions@),
                        vt.trim_last,
                    )
                    &&& final(self).trim_next == (old(self).trim_next || vt.trim_next)
                    &&& old(self).rem().len() - final(self).rem().len() >= 4
                    &&& old(self).pos <= final(self).pos
                },
                Err(e) => spec_consume_value(old(self).rem()) == Err::<ValueTag, ParseErrorModel>(
                    e@,
                ),
            },
    {
        proof {
            reveal_strlit("}}");
        }
        let tag = match self.consume_tag("}}") {
            Ok(t) => t,
            Err(e) => {
                return Err(e);
            },
        };
        proof {
            assert(tag@[0] == old(self).rem()[0]);
            assert(tag@[1] == old(self).rem()[1]);
            assert(tag@.len() >= 4);
        }
        let tlen = tag.as_str().unicode_len();
        let inner: &str = tag.as_str().substring_char(2, tlen - 2);
        let mut cur: &str = trim_str(inner);
        let mut tag_trim_last = false;
        proof {
            assert(inner@ =~= tag@.subrange(2, tag@.len() - 2));
        }
        if starts_with_char(cur, '-') {
            tag_trim_last = true;
            self.trim_last_whitespace();
            let cn = cur.unicode_len();
            let shorter: &str = cur.substring_char(1, cn);
            proof {
                assert(shorter@ =~= cur@.drop_first());
            }
            cur = trim_str(shorter);
        }
        if ends_with_char(cur, '-') {
            self.trim_next_whitespace();
            let cn = cur.unicode_len();
            let shorter: &str = cur.substring_char(0, cn - 1);
            proof {
                assert(shorter@ =~= cur@.drop_last());
            }
            cur = trim_str(shorter);
        }
        let cn = cur.unicode_len();
        match find_char(cur, '|') {
            Some(i) => {
                proof {
                    lemma_find_char(cur@, '|');
                }
                let path_str: &str = trim_str(cur.substring_char(0, i));
                let name: String = trim_str(cur.substring_char(i + 1, cn)).to_owned();
                proof {
                    assert(cur@.subrange(0, i as int) =~= cur@.take(i as int));
                    assert(cur@.subrange(i as int + 1, cn as int) =~= cur@.skip(i as int + 1));
                }
                match parse_path(path_str) {
                    Ok(path) => Ok((path, Some(name))),
                    Err(e) => Err(e),
                }
            },
            None => match parse_path(cur) {
                Ok(path) => Ok((path, None)),
                Err(e) => Err(e),
            },
        }
    }

    /// Consumes one `{# ... #}` comment tag: it emits nothing, but its
    /// whitespace-trim markers participate like those of any other tag.
    fn consume_comment(&mut self) -> (r: Result<(), ParseError>)
        requires
            old(self).wf(),
            starts2(old(self).rem(), '{', '#'),
        ensures
            final(self).wf(),
            final(self).source == old(self).source,
            final(self).block_stack == old(self).block_stack,
            match r {
                Ok(_) => spec_consume_comment(old(self).rem()) matches Ok(t) && {
                    &&& final(self).rem() == t.2
                    &&& instructions_view(final(self).instructions@) == apply_trim_last(
                        instructions_view(old(self).instructions@),
                        t.0,
                    )
                    &&& final(self).trim_next == (old(self).trim_next || t.1)
                    &&& old(self).rem().len() - final(self).rem().len() >= 4
                    &&& old(self).pos <= final(self).pos
                },
                Err(e) => spec_consume_comment(old(self).rem()) == Err::<
                    (bool, bool, Seq<char>),
                    _,
                >(e@),
            },
    {
        proof {
            reveal_strlit("#}");
        }
        let tag = match self.consume_tag("#}") {
            Ok(t) => t,
            Err(e) => {
                return Err(e);
            },
        };
        proof {
            assert(tag@[0] == old(self).rem()[0]);
            assert(tag@[1] == old(self).rem()[1]);
            assert(tag@.len() >= 4);
        }
        let tlen = tag.as_str().unicode_len();
        let inner: &str = tag.as_str().substring_char(2, tlen - 2);
        let comment: &str = trim_str(inner);
        proof {
            assert(inner@ =~= tag@.subrange(2, tag@.len() - 2));
        }
        if starts_with_char(comment, '-') {
            self.trim_last_whitespace();
        }
        if ends_with_char(comment, '-') {
            self.trim_next_whitespace();
        }
        Ok(())
    }

    /// Parses one `{% ... %}` block tag: applies its whitespace-trim markers
    /// and returns the discriminant and the block-specific payload.
    fn consume_block(&mut self) -> (r: Result<(String, String), ParseError>)
        requires
            old(self).wf(),
            starts2(old(self).rem(), '{', '%'),
        ensures
            final(self).wf(),
            final(self).source == old(self).source,
            final(self).block_stack == old(self).block_stack,
            match r {
                Ok(dr) => spec_consume_block(old(self).rem()) matches Ok(bt) && {
                    &&& bt.discriminant == dr.0@
                    &&& bt.rest == dr.1@
                    &&& final(self).rem() == bt.rem
                    &&& instructions_view(final(self).instructions@) == apply_trim_last(
                        instructions_view(old(self).instructions@),
                        bt.trim_last,
                    )
                    &&& final(self).trim_next == (old(self).trim_next || bt.trim_next)
                    &&& old(self).rem().len() - final(self).rem().len() >= 4
                    &&& old(self).pos <= final(self).pos
                },
                Err(e) => spec_consume_block(old(self).rem()) == Err::<BlockTag, _>(e@),
            },
    {
        proof {
            reveal_strlit("%}");
        }
        let tag = match self.consume_tag("%}") {
            Ok(t) => t,
            Err(e) => {
                return Err(e);
            },
        };
        proof {
            assert(tag@[0] == old(self).rem()[0]);
            assert(tag@[1] == old(self).rem()[1]);
            assert(tag@.len() >= 4);
        }
        let tlen = tag.as_str().unicode_len();
        let inner: &str = tag.as_str().substring_char(2, tlen - 2);
        let mut cur: &str = trim_str(inner);
        proof {
            assert(inner@ =~= tag@.subrange(2, tag@.len() - 2));
        }
        if starts_with_char(cur, '-') {
            self.trim_last_whitespace();
            let cn = cur.unicode_len();
            let shorter: &str = cur.substring_char(1, cn);
            proof {
                assert(shorter@ =~= cur@.drop_first());
            }
            cur = trim_str(shorter);
        }
        if ends_with_char(cur, '-') {
            self.trim_next_whitespace();
            let cn = cur.unicode_len();
            let shorter: &str = cur.substring_char(0, cn - 1);
            proof {
                assert(shorter@ =~= cur@.drop_last());
            }
            cur = trim_str(shorter);
        }
        let bn = cur.unicode_len();
        let mut k: usize = 0;
        while k < bn && !is_space(cur.get_char(k))
            invariant
                bn == cur@.len(),
                0 <= k <= bn,
                forall|j: int| 0 <= j < k ==> !is_space_char(cur@[j]),
            decreases bn - k,
        {
            k = k + 1;
        }
        proof {
            lemma_non_space_len(cur@, k as int);
        }
        let disc = cur.substring_char(0, k).to_owned();
        let rest = trim_str(cur.substring_char(k, bn)).to_owned();
        proof {
            assert(disc@ =~= cur@.take(k as int));
            assert(cur@.subrange(k as int, bn as int) =~= cur@.skip(k as int));
        }
        Ok((disc, rest))
    }

    /// Parses a `with` payload: `path` alone, or `path as name`.
    fn parse_with(&self, with_text: &str) -> (r: Result<(Path, Option<String>), ParseError>)
        ensures
            match r {
                Ok(pn) => spec_parse_with(with_text@) matches Ok(m) && m.0 == strings_view(pn.0@)
                    && (match pn.1 {
                    Some(n) => m.1 == Some(n@),
                    None => m.1 is None,
                }),
                Err(e) => spec_parse_with(with_text@) == Err::<
                    (Seq<Seq<char>>, Option<Seq<char>>),
                    _,
                >(e@),
            },
    {
        proof {
            reveal_strlit(" as ");
        }
        match find_sub(with_text, " as ") {
            Some(i) => {
                proof {
                    lemma_find_sub(with_text@, " as "@);
                }
                let n = with_text.unicode_len();
                let path_str = trim_str(with_text.substring_char(0, i));
                proof {
                    assert(with_text@.subrange(0, i as int) =~= with_text@.take(i as int));
                    assert(with_text@.subrange(i as int + 4, n as int) =~= with_text@.skip(
                        i + " as "@.len(),
                    ));
                }
                match parse_path(path_str) {
                    Ok(path) => {
                        let name = trim_str(with_text.substring_char(i + 4, n)).to_owned();
                        Ok((path, Some(name)))
                    },
                    Err(e) => Err(e),
                }
            },
            None => match parse_path(with_text) {
                Ok(path) => Ok((path, None)),
                Err(e) => Err(e),
            },
        }
    }

    /// Parses a `for` payload: `name in path`; the keyword is required.
    fn parse_for(&self, for_text: &str) -> (r: Result<(Path, String), ParseError>)
        ensures
            match r {
                Ok(pn) => spec_parse_for(for_text@) matches Ok(m) && m.0 == strings_view(pn.0@)
                    && m.1 == pn.1@,
                Err(e) => spec_parse_for(for_text@) == Err::<(Seq<Seq<char>>, Seq<char>), _>(e@),
            },
    {
        proof {
            reveal_strlit(" in ");
        }
        match find_sub(for_text, " in ") {
            Some(i) => {
                proof {
                    lemma_find_sub(for_text@, " in "@);
                }
                let n = for_text.unicode_len();
                let name = trim_str(for_text.substring_char(0, i)).to_owned();
                let path_str = trim_str(for_text.substring_char(i + 4, n));
                proof {
                    assert(for_text@.subrange(0, i as int) =~= for_text@.take(i as int));
                    assert(for_text@.subrange(i as int + 4, n as int) =~= for_text@.skip(
                        i + " in "@.len(),
                    ));
                }
                match parse_path(path_str) {
                    Ok(path) => Ok((path, name)),
                    Err(e) => Err(e),
                }
            },
            None => Err(ParseError::MalformedFor { text: for_text.to_owned() }),
        }
    }

    /// Parses a `call` payload: `name with path`; the keyword is required.
    fn parse_call(&self, call_text: &str) -> (r: Result<(String, Path), ParseError>)
        ensures
            match r {
                Ok(pn) => spec_parse_call(call_text@) matches Ok(m) && m.0 == pn.0@ && m.1
                    == strings_view(pn.1@),
                Err(e) => spec_parse_call(call_text@) == Err::<(Seq<char>, Seq<Seq<char>>), _>(e@),
            },
    {
        proof {
            reveal_strlit(" with ");
        }
        match find_sub(call_text, " with ") {
            Some(i) => {
                proof {
                    lemma_find_sub(call_text@, " with "@);
                }
                let n = call_text.unicode_len();
                let name = trim_str(call_text.substring_char(0, i)).to_owned();
                let path_str = trim_str(call_text.substring_char(i + 6, n));
                proof {
                    assert(call_text@.subrange(0, i as int) =~= call_text@.take(i as int));
                    assert(call_text@.subrange(i as int + 6, n as int) =~= call_text@.skip(
                        i + " with "@.len(),
                    ));
                }
                match parse_path(path_str) {
                    Ok(path) => Ok((name, path)),
                    Err(e) => Err(e),
                }
            },
            None => Err(ParseError::MalformedCall { text: call_text.to_owned() }),
        }
    }

    /// Compiles the whole source text: repeatedly consumes one tag or one
    /// literal run until the text is exhausted. The result is exactly what
    /// [`spec_compile_from`] says of the compiler's starting state.
    pub fn compile(self) -> (r: Result<Vec<Instruction>, ParseError>)
        requires
            self.wf(),
            self.bounded(),
        ensures
            match r {
                Ok(ins) => spec_compile_from(self.state()) == Ok::<_, ParseErrorModel>(
                    instructions_view(ins@),
                ),
                Err(e) => spec_compile_from(self.state()) == Err::<Seq<InstructionModel>, _>(e@),
            },
    {
        let mut this = self;
        let ghost init = this.state();
        loop
            invariant
                init == self.state(),
                this.wf(),
                this.bounded(),
                spec_compile_from(this.state()) == spec_compile_from(init),
            decreases this.source@.len() - this.pos,
        {
            let n = this.source.as_str().unicode_len();
            if this.pos >= n {
                proof {
                    assert(this.rem().len() == 0);
                }
                if this.block_stack.len() == 0 {
                    proof {
                        assert(spec_compile_from(this.state()) == Ok::<_, ParseErrorModel>(
                            instructions_view(this.instructions@),
                        ));
                    }
                    return Ok(this.instructions);
                } else {
                    proof {
                        assert(spec_compile_from(this.state()) == Err::<Seq<InstructionModel>, _>(
                            ParseErrorModel::UnclosedBlock,
                        ));
                    }
                    return Err(ParseError::UnclosedBlock);
                }
            }
            proof {
                assert(this.rem().len() > 0);
            }
            let ghost pre = this.state();
            if this.peek2('{', '{') {
                match this.consume_value() {
                    Err(e) => {
                        proof {
                            assert(spec_compile_step(pre) == Err::<CompileState, ParseErrorModel>(
                                e@,
                            ));
                        }
                        return Err(e);
                    },
                    Ok((path, fmt)) => {
                        let ghost vt = spec_consume_value(pre.rem)->Ok_0;
                        let instr = match fmt {
                            Some(name) => Instruction::FormattedValue(path, name),
                            None => Instruction::Value(path),
                        };
                        let ghost mid_ins = instructions_view(this.instructions@);
                        this.instructions.push(instr);
                        proof {
                            assert(instructions_view(this.instructions@) =~= mid_ins + seq![
                                instr@,
                            ]);
                            assert(spec_compile_step(pre) is Ok);
                            assert(spec_compile_step(pre)->Ok_0 =~= this.state());
                            assert(this.state().rem.len() < pre.rem.len());
                        }
                    },
                }
            } else if this.peek2('{', '#') {
                match this.consume_comment() {
                    Err(e) => {
                        proof {
                            assert(spec_compile_step(pre) == Err::<CompileState, ParseErrorModel>(
                                e@,
                            ));
                        }
                        return Err(e);
                    },
                    Ok(_) => {
                        proof {
                            assert(spec_compile_step(pre) is Ok);
                            assert(spec_compile_step(pre)->Ok_0 =~= this.state());
                            assert(this.state().rem.len() < pre.rem.len());
                        }
                    },
                }
            } else if this.peek2('{', '%') {
                let (discriminant, rest) = match this.consume_block() {
                    Err(e) => {
                        proof {
                            assert(spec_compile_step(pre) == Err::<CompileState, ParseErrorModel>(
                                e@,
                            ));
                        }
                        return Err(e);
                    },
                    Ok(dr) => dr,
                };
                let ghost bt = spec_consume_block(pre.rem)->Ok_0;
                let ghost ins1 = instructions_view(this.instructions@);
                let ghost tn = this.trim_next;
                if str_eq(discriminant.as_str(), "if") {
                    let path = match parse_path(rest.as_str()) {
                        Err(e) => {
                            proof {
                                assert(spec_compile_step(pre) == Err::<
                                    CompileState,
                                    ParseErrorModel,
                                >(e@));
                            }
                            return Err(e);
                        },
                        Ok(p) => p,
                    };
                    let here = this.instructions.len();
                    this.block_stack.push(Block::Branch(here));
                    this.instructions.push(Instruction::Branch(path, UNKNOWN));
                    proof {
                        assert(instructions_view(this.instructions@) =~= ins1 + seq![
                            InstructionModel::Branch(strings_view(path@), UNKNOWN as int),
                        ]);
                        assert(blocks_view(this.block_stack@) =~= pre.blocks.push(
                            BlockModel::Branch(here as int),
                        ));
                        assert(spec_compile_step(pre) is Ok);
                        assert(spec_compile_step(pre)->Ok_0 =~= this.state());
                    }
                } else if str_eq(discriminant.as_str(), "else") {
                    match this.expect_empty(rest.as_str()) {
                        Err(e) => {
                            proof {
                                assert(spec_compile_step(pre) == Err::<
                                    CompileState,
                                    ParseErrorModel,
                                >(e@));
                            }
                            return Err(e);
                        },
                        Ok(_) => {},
                    }
                    proof {
                        assert(this.instructions.len() < usize::MAX);
                    }
                    let num = this.instructions.len() + 1;
                    match this.close_branch(num) {
                        Err(e) => {
                            proof {
                                assert(spec_compile_step(pre) == Err::<
                                    CompileState,
                                    ParseErrorModel,
                                >(e@));
                            }
                            return Err(e);
                        },
                        Ok(_) => {},
                    }
                    let ghost ins2 = instructions_view(this.instructions@);
                    let gidx = this.instructions.len();
                    this.block_stack.push(Block::Branch(gidx));
                    this.instructions.push(Instruction::Goto(UNKNOWN));
                    proof {
                        assert(instructions_view(this.instructions@) =~= ins2 + seq![
                            InstructionModel::Goto(UNKNOWN as int),
                        ]);
                        assert(blocks_view(this.block_stack@) =~= spec_close_branch(
                            ins1,
                            pre.blocks,
                            ins1.len() + 1int,
                        )->Ok_0.1.push(BlockModel::Branch(gidx as int)));
                        assert(spec_compile_step(pre) is Ok);
                        assert(spec_compile_step(pre)->Ok_0 =~= this.state());
                    }
                } else if str_eq(discriminant.as_str(), "endif") {
                    match this.expect_empty(rest.as_str()) {
                        Err(e) => {
                            proof {
                                assert(spec_compile_step(pre) == Err::<
                                    CompileState,
                                    ParseErrorModel,
                                >(e@));
                            }
                            return Err(e);
                        },
                        Ok(_) => {},
                    }
                    let num = this.instructions.len();
                    match this.close_branch(num) {
                        Err(e) => {
                            proof {
                                assert(spec_compile_step(pre) == Err::<
                                    CompileState,
                                    ParseErrorModel,
                                >(e@));
                            }
                            return Err(e);
                        },
                        Ok(_) => {},
                    }
                    proof {
                        assert(spec_compile_step(pre) is Ok);
                        assert(spec_compile_step(pre)->Ok_0 =~= this.state());
                    }
                } else if str_eq(discriminant.as_str(), "with") {
                    let (path, name) = match this.parse_with(rest.as_str()) {
                        Err(e) => {
                            proof {
                                assert(spec_compile_step(pre) == Err::<
                                    CompileState,
                                    ParseErrorModel,
                                >(e@));
                            }
                            return Err(e);
                        },
                        Ok(pn) => pn,
                    };
                    let instr = match name {
                        Some(n) => Instruction::PushNamedContext(path, n),
                        None => Instruction::PushContext(path),
                    };
                    this.instructions.push(instr);
                    this.block_stack.push(Block::With);
                    proof {
                        assert(instructions_view(this.instructions@) =~= ins1 + seq![instr@]);
                        assert(blocks_view(this.block_stack@) =~= pre.blocks.push(
                            BlockModel::With,
                        ));
                        assert(spec_compile_step(pre) is Ok);
                        assert(spec_compile_step(pre)->Ok_0 =~= this.state());
                    }
                } else if str_eq(discriminant.as_str(), "endwith") {
                    match this.expect_empty(rest.as_str()) {
                        Err(e) => {
                            proof {
                                assert(spec_compile_step(pre) == Err::<
                                    CompileState,
                                    ParseErrorModel,
                                >(e@));
                            }
                            return Err(e);
                        },
                        Ok(_) => {},
                    }
                    if this.block_stack.len() == 0 {
                        proof {
                            assert(spec_compile_step(pre) == Err::<CompileState, ParseErrorModel>(
                                ParseErrorModel::MismatchedEndWith,
                            ));
                        }
                        return Err(ParseError::MismatchedEndWith);
                    }
                    let popped = this.block_stack.pop();
                    proof {
                        assert(blocks_view(this.block_stack@) =~= pre.blocks.drop_last());
                    }
                    match popped {
                        Some(Block::With) => {
                            this.instructions.push(Instruction::PopContext);
                            proof {
                                assert(instructions_view(this.instructions@) =~= ins1 + seq![
                                    InstructionModel::PopContext,
                                ]);
                                assert(spec_compile_step(pre) is Ok);
                                assert(spec_compile_step(pre)->Ok_0 =~= this.state());
                            }
                        },
                        _ => {
                            proof {
                                assert(spec_compile_step(pre) == Err::<
                                    CompileState,
                                    ParseErrorModel,
                                >(ParseErrorModel::MismatchedEndWith));
                            }
                            return Err(ParseError::MismatchedEndWith);
                        },
                    }
                } else if str_eq(discriminant.as_str(), "for") {
                    let (path, name) = match this.parse_for(rest.as_str()) {
                        Err(e) => {
                            proof {
                                assert(spec_compile_step(pre) == Err::<
                                    CompileState,
                                    ParseErrorModel,
                                >(e@));
                            }
                            return Err(e);
                        },
                        Ok(pn) => pn,
                    };
                    this.instructions.push(Instruction::PushIterationContext(path, name));
                    let ghost ins2 = instructions_view(this.instructions@);
                    let idx = this.instructions.len();
                    this.block_stack.push(Block::For(idx));
                    this.instructions.push(Instruction::Iterate(UNKNOWN));
                    proof {
                        assert(instructions_view(this.instructions@) =~= ins2 + seq![
                            InstructionModel::Iterate(UNKNOWN as int),
                        ]);
                        assert(blocks_view(this.block_stack@) =~= pre.blocks.push(
                            BlockModel::For(idx as int),
                        ));
                        assert(spec_compile_step(pre) is Ok);
                        assert(spec_compile_step(pre)->Ok_0 =~= this.state());
                    }
                } else if str_eq(discriminant.as_str(), "endfor") {
                    match this.expect_empty(rest.as_str()) {
                        Err(e) => {
                            proof {
                                assert(spec_compile_step(pre) == Err::<
                                    CompileState,
                                    ParseErrorModel,
                                >(e@));
                            }
                            return Err(e);
                        },
                        Ok(_) => {},
                    }
                    proof {
                        assert(this.instructions.len() < usize::MAX);
                    }
                    let num = this.instructions.len() + 1;
                    let goto_target = match this.close_for(num) {
                        Err(e) => {
                            proof {
                                assert(spec_compile_step(pre) == Err::<
                                    CompileState,
                                    ParseErrorModel,
                                >(e@));
                            }
                            return Err(e);
                        },
                        Ok(idx) => idx,
                    };
                    let ghost ins2 = instructions_view(this.instructions@);
                    this.instructions.push(Instruction::Goto(goto_target));
                    this.instructions.push(Instruction::PopContext);
                    proof {
                        assert(instructions_view(this.instructions@) =~= ins2 + seq![
                            InstructionModel::Goto(goto_target as int),
                            InstructionModel::PopContext,
                        ]);
                        assert(spec_compile_step(pre) is Ok);
                        assert(spec_compile_step(pre)->Ok_0 =~= this.state());
                    }
                } else if str_eq(discriminant.as_str(), "call") {
                    let (name, path) = match this.parse_call(rest.as_str()) {
                        Err(e) => {
                            proof {
                                assert(spec_compile_step(pre) == Err::<
                                    CompileState,
                                    ParseErrorModel,
                                >(e@));
                            }
                            return Err(e);
                        },
                        Ok(np) => np,
                    };
                    let instr = Instruction::Call(name, path);
                    this.instructions.push(instr);
                    proof {
                        assert(instructions_view(this.instructions@) =~= ins1 + seq![instr@]);
                        assert(spec_compile_step(pre) is Ok);
                        assert(spec_compile_step(pre)->Ok_0 =~= this.state());
                    }
                } else {
                    proof {
                        assert(spec_compile_step(pre) == Err::<CompileState, ParseErrorModel>(
                            ParseErrorModel::UnknownBlock { name: bt.discriminant },
                        ));
                    }
                    return Err(ParseError::UnknownBlock { name: discriminant });
                }
            } else if this.peek('{') {
                proof {
                    assert(spec_compile_step(pre) == Err::<CompileState, ParseErrorModel>(
                        ParseErrorModel::UnexpectedCharacter,
                    ));
                }
                return Err(ParseError::UnexpectedCharacter);
            } else {
                let text = this.consume_text();
                let lit: String;
                if this.trim_next {
                    lit = trim_start_str(text.as_str()).to_owned();
                    this.trim_next = false;
                } else {
                    lit = text;
                }
                let ghost mid_ins = instructions_view(this.instructions@);
                this.instructions.push(Instruction::Literal(lit));
                proof {
                    assert(instructions_view(this.instructions@) =~= mid_ins + seq![
                        InstructionModel::Literal(lit@),
                    ]);
                    assert(spec_compile_step(pre) is Ok);
                    assert(spec_compile_step(pre)->Ok_0 =~= this.state());
                    assert(this.state().rem.len() < pre.rem.len());
                }
            }
            proof {
                assert(spec_compile_from(pre) == spec_compile_from(this.state()));
            }
        }
    }
}

} // verus!
