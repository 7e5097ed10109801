//! The compiled template: an immutable instruction sequence plus the byte
//! length of its source (kept only as an output-buffer size hint), created
//! once by compiling source text and never mutated afterwards.

use vstd::prelude::*;
use vstd::string::*;

use crate::compiler::{spec_compile, TemplateCompiler};
use crate::error::{ParseError, ParseErrorModel, RenderError, RenderErrorModel};
use crate::instruction::{instructions_view, Instruction, InstructionModel};
use crate::render::{
    run_program, spec_render, spec_render_output, FormatterRegistry, TemplateRegistry,
    ValueFormatter, RENDER_FUEL,
};
use crate::value::Value;

verus! {

/// Relies on String::with_capacity: a fresh empty string with at least the
/// given capacity pre-allocated.
pub assume_specification[ String::with_capacity ](capacity: usize) -> (s: String)
    ensures
        s@ == Seq::<char>::empty(),
;

/// An immutable compiled template.
pub struct Template {
    pub(crate) instructions: Vec<Instruction>,
    pub(crate) template_len: usize,
}

impl View for Template {
    type V = Seq<InstructionModel>;

    closed spec fn view(&self) -> Seq<InstructionModel> {
        instructions_view(self.instructions@)
    }
}

impl Template {
    /// Compiles source text into a template: exactly the program that
    /// [`spec_compile`] assigns to the text.
    pub fn compile(text: &str) -> (r: Result<Template, ParseError>)
        ensures
            match r {
                Ok(t) => spec_compile(text@) == Ok::<_, ParseErrorModel>(t@),
                Err(e) => spec_compile(text@) == Err::<Seq<InstructionModel>, _>(e@),
            },
    {
        let template_len = text.len();
        let compiler = TemplateCompiler::new(text);
        match compiler.compile() {
            Ok(instructions) => Ok(Template { instructions, template_len }),
            Err(e) => Err(e),
        }
    }

    /// Renders the template against a root value: the output text is exactly
    /// what [`spec_render`] assigns to the program and the value.
    pub fn render<F: ValueFormatter>(
        &self,
        context: &Value,
        template_registry: &TemplateRegistry,
        formatter_registry: &FormatterRegistry<F>,
    ) -> (r: Result<String, RenderError>)
        ensures
            match r {
                Ok(s) => spec_render(
                    template_registry@,
                    *formatter_registry,
                    self@,
                    *context,
                    Seq::<char>::empty(),
                ) == Ok::<_, RenderErrorModel>(s@),
                Err(e) => spec_render(
                    template_registry@,
                    *formatter_registry,
                    self@,
                    *context,
                    Seq::<char>::empty(),
                ) == Err::<Seq<char>, _>(e@),
            },
    {
        // The length of the original source is a reasonable guess at the
        // length of the output.
        let mut output = String::with_capacity(self.template_len);
        match self.render_into(context, template_registry, formatter_registry, &mut output) {
            Ok(_) => Ok(output),
            Err(e) => Err(e),
        }
    }

    /// Renders the template against a root value, appending the output to
    /// `output`. A failing render leaves in `output` exactly the partial
    /// output accumulated before the failing instruction, which itself
    /// appends nothing.
    pub fn render_into<F: ValueFormatter>(
        &self,
        context: &Value,
        template_registry: &TemplateRegistry,
        formatter_registry: &FormatterRegistry<F>,
        output: &mut String,
    ) -> (r: Result<(), RenderError>)
        ensures
            match r {
                Ok(_) => spec_render(
                    template_registry@,
                    *formatter_registry,
                    self@,
                    *context,
                    old(output)@,
                ) == Ok::<_, RenderErrorModel>(final(output)@),
                Err(e) => spec_render(
                    template_registry@,
                    *formatter_registry,
                    self@,
                    *context,
                    old(output)@,
                ) == Err::<Seq<char>, _>(e@),
            },
            final(output)@ == spec_render_output(
                template_registry@,
                *formatter_registry,
                self@,
                *context,
                old(output)@,
            ),
            old(output)@.is_prefix_of(final(output)@),
    {
        let (res, _fuel_left) = run_program(
            &self.instructions,
            context,
            template_registry,
            formatter_registry,
            output,
            RENDER_FUEL,
        );
        res
    }
}

/// Within the crate, a template's view is the views of its instructions.
pub(crate) proof fn template_view_is(t: &Template)
    ensures
        t@ == instructions_view(t.instructions@),
{
}

} // verus!
