//! Rendering one math fragment through the KaTeX typesetting engine.

use std::collections::HashMap;
use vstd::prelude::*;
use vstd::string::StringExecFns;

verus! {

/// What the KaTeX engine makes of a formula: `Some(markup)` when it accepts
/// the source, `None` when it rejects the formula's syntax. The engine is
/// deterministic in the source, the display-mode flag and the macro table,
/// so the outcome is a function of those arguments alone.
pub uninterp spec fn katex_output(
    source: Seq<char>,
    display: bool,
    macros: Map<Seq<char>, Seq<char>>,
) -> Option<Seq<char>>;

/// Failure of a single rendering call.
#[derive(Debug)]
pub enum RenderError {
    /// The engine rejected the formula's syntax; `raw` is the offending
    /// source handed to the engine.
    Syntax { raw: String, message: String },
    /// Any other engine failure; never tolerated, whatever the error policy.
    Fatal { message: String },
}

/// Relies on katex::render_with_opts (katex 0.4): renders a formula to HTML
/// markup, deterministically in the source, the display-mode flag and the
/// macro table; its `JsExecError` is the engine's rejection of the formula,
/// and its other errors come from the embedded JS environment itself.
#[verifier::external_body]
pub(crate) fn typeset(source: &str, display: bool, macros: &HashMap<String, String>) -> (r: Result<
    String,
    RenderError,
>)
    ensures
        r matches Ok(h) ==> katex_output(source@, display, macros.deep_view()) == Some(h@),
        r matches Err(e) ==> (e matches RenderError::Syntax { raw, message } ==> katex_output(
            source@,
            display,
            macros.deep_view(),
        ) is None && raw@ == source@),
{
    let opts = match katex::Opts::builder().display_mode(display).macros(macros.clone()).build() {
        Ok(o) => o,
        Err(e) => return Err(RenderError::Fatal { message: e.to_string() }),
    };
    match katex::render_with_opts(source, opts) {
        Ok(html) => Ok(html),
        Err(katex::Error::JsExecError(m)) => Err(
            RenderError::Syntax { raw: source.to_owned(), message: m },
        ),
        Err(e) => Err(RenderError::Fatal { message: e.to_string() }),
    }
}

/// Options for rendering one formula: the error policy, the typesetting
/// mode, and the macro substitution table.
#[derive(Debug, Default)]
pub struct KatexContext {
    pub restrict: bool,
    pub display: bool,
    pub macros: HashMap<String, String>,
}

impl KatexContext {
    pub fn new(restrict: bool, display: bool, macros: HashMap<String, String>) -> (r: Self)
        ensures
            r.restrict == restrict,
            r.display == display,
            r.macros == macros,
    {
        KatexContext { restrict, display, macros }
    }
}

/// The inline warning that replaces a formula the engine rejected, under the
/// lenient policy.
pub open spec fn tex_warn(code: Seq<char>) -> Seq<char> {
    "<span class=\"katex-warning\">\nInvalid KaTeX eqation: <code>"@ + code + "</code>\n</span>"@
}

/// Renders one formula. On engine success, the markup; on an engine syntax
/// rejection, an inline warning holding the source when the policy is
/// lenient, the syntax error itself when it is strict; any other engine
/// failure is passed through.
pub fn render_katex(source: &str, ctx: &KatexContext) -> (r: Result<String, RenderError>)
    ensures
        ({
            let out = katex_output(source@, ctx.display, ctx.macros.deep_view());
            match r {
                Ok(h) => (out matches Some(html) ==> h@ == html) && (out is None ==> !ctx.restrict
                    && h@ == tex_warn(source@)),
                Err(RenderError::Syntax { raw, message }) => ctx.restrict && out is None && raw@
                    == source@,
                Err(RenderError::Fatal { message }) => true,
            }
        }),
{
    match typeset(source, ctx.display, &ctx.macros) {
        Ok(h) => Ok(h),
        Err(RenderError::Syntax { raw, message }) => {
            if ctx.restrict {
                Err(RenderError::Syntax { raw, message })
            } else {
                let mut w = "<span class=\"katex-warning\">\nInvalid KaTeX eqation: <code>".to_owned();
                w.append(source);
                w.append("</code>\n</span>");
                Ok(w)
            }
        },
        Err(e) => Err(e),
    }
}

} // verus!
