//! Error-aggregating composition of scanned segments.
//!
//! Folds the segment sequence into an output document, replacing each math
//! fragment by rendered markup or an inline warning, and applies the
//! strict/lenient diagnostic policy.

use crate::render::RenderError;
use crate::render::katex_output;
use crate::render::typeset;
use crate::scanner::Delimiter;
use crate::scanner::DelimView;
use crate::scanner::SegView;
use crate::scanner::Segment;
use crate::scanner::delims_view;
use crate::scanner::delims_wf;
use crate::scanner::matches_at;
use crate::scanner::scan_from;
use crate::scanner::segment;
use crate::scanner::segs_view;
use std::collections::HashMap;
use vstd::prelude::*;
use vstd::string::StringExecFns;

verus! {

/// Everything one document render needs: the enable switch, the error
/// policy, the delimiter table and the macro substitution table.
pub struct RenderContext {
    pub enabled: bool,
    pub strict: bool,
    pub delimiters: Vec<Delimiter>,
    pub macros: HashMap<String, String>,
}

impl RenderContext {
    pub fn new(
        enabled: bool,
        strict: bool,
        delimiters: Vec<Delimiter>,
        macros: HashMap<String, String>,
    ) -> (r: Self)
        ensures
            r.enabled == enabled,
            r.strict == strict,
            r.delimiters == delimiters,
            r.macros == macros,
    {
        RenderContext { enabled, strict, delimiters, macros }
    }
}

/// The default delimiter table: display math `$$...$$` before inline math
/// `$...$`, so that a bare `$$` is never read as two adjacent inline markers.
pub fn default_delimiters() -> (v: Vec<Delimiter>)
    ensures
        delims_view(v@) =~= seq![
            DelimView { left: "$$"@, right: "$$"@, display: true },
            DelimView { left: "$"@, right: "$"@, display: false },
        ],
        delims_wf(delims_view(v@)),
{
    proof {
        reveal_strlit("$$");
        reveal_strlit("$");
    }
    let mut v: Vec<Delimiter> = Vec::new();
    v.push(Delimiter { left: "$$".to_owned(), right: "$$".to_owned(), display: true });
    v.push(Delimiter { left: "$".to_owned(), right: "$".to_owned(), display: false });
    v
}

/// A failed composition.
#[derive(Debug)]
pub enum ComposeError {
    /// The strict policy escalated the recorded diagnostics; `message` holds
    /// them all, newline-joined, in the order encountered.
    Aggregated { message: String },
    /// The typesetting engine failed for a reason other than a formula's
    /// syntax; surfaced immediately, whatever the policy.
    Engine { message: String },
}

/// What one segment contributes to the output document.
pub open spec fn seg_output(s: SegView, macros: Map<Seq<char>, Seq<char>>) -> Seq<char> {
    match s {
        SegView::Text { data } => data,
        SegView::Math { content, raw, display } => match katex_output(content, display, macros) {
            Some(html) => html,
            None => " ***[KaTeX Warning] Fail to parse formula:*** "@ + raw,
        },
        SegView::Unclosed { marker } => " ***[KaTeX Warning] Unclosed delimiter ->*** "@ + marker,
    }
}

/// The diagnostics one segment records.
pub open spec fn seg_diags(s: SegView, macros: Map<Seq<char>, Seq<char>>) -> Seq<Seq<char>> {
    match s {
        SegView::Text { data } => Seq::empty(),
        SegView::Math { content, raw, display } => if katex_output(content, display, macros)
            is Some {
            Seq::empty()
        } else {
            seq!["Fail to parse formula: "@ + raw]
        },
        SegView::Unclosed { marker } => seq!["Unclosed delimiter: "@ + marker],
    }
}

/// The output document a sequence of segments composes to.
pub open spec fn segs_output(segs: Seq<SegView>, macros: Map<Seq<char>, Seq<char>>) -> Seq<char>
    decreases segs.len(),
{
    if segs.len() == 0 {
        Seq::empty()
    } else {
        seg_output(segs[0], macros) + segs_output(segs.drop_first(), macros)
    }
}

/// The ordered diagnostics a sequence of segments records.
pub open spec fn segs_diags(segs: Seq<SegView>, macros: Map<Seq<char>, Seq<char>>) -> Seq<
    Seq<char>,
>
    decreases segs.len(),
{
    if segs.len() == 0 {
        Seq::empty()
    } else {
        seg_diags(segs[0], macros) + segs_diags(segs.drop_first(), macros)
    }
}

/// How many math segments a sequence holds.
pub open spec fn count_math(segs: Seq<SegView>) -> nat
    decreases segs.len(),
{
    if segs.len() == 0 {
        0
    } else {
        (if segs[0] is Math {
            1nat
        } else {
            0nat
        }) + count_math(segs.drop_first())
    }
}

/// Diagnostics joined by a newline, one per line, in order.
pub open spec fn join_diags(ds: Seq<Seq<char>>) -> Seq<char>
    decreases ds.len(),
{
    if ds.len() == 0 {
        Seq::empty()
    } else if ds.len() == 1 {
        ds[0]
    } else {
        ds[0] + "\n"@ + join_diags(ds.drop_first())
    }
}

/// Appending one segment appends its contribution to the composed output.
proof fn lemma_segs_output_push(segs: Seq<SegView>, s: SegView, macros: Map<Seq<char>, Seq<char>>)
    ensures
        segs_output(segs.push(s), macros) == segs_output(segs, macros) + seg_output(s, macros),
    decreases segs.len(),
{
    if segs.len() == 0 {
        assert(segs.push(s)[0] == s);
        assert(segs.push(s).drop_first() =~= Seq::<SegView>::empty());
        assert(segs_output(Seq::<SegView>::empty(), macros) == Seq::<char>::empty());
        assert(segs_output(segs.push(s), macros) =~= seg_output(s, macros));
        assert(segs_output(segs, macros) + seg_output(s, macros) =~= seg_output(s, macros));
    } else {
        assert(segs.push(s).drop_first() =~= segs.drop_first().push(s));
        lemma_segs_output_push(segs.drop_first(), s, macros);
        assert(seg_output(segs[0], macros) + (segs_output(segs.drop_first(), macros) + seg_output(
            s,
            macros,
        )) =~= (seg_output(segs[0], macros) + segs_output(segs.drop_first(), macros)) + seg_output(
            s,
            macros,
        ));
    }
}

/// Appending one segment appends its diagnostics.
proof fn lemma_segs_diags_push(segs: Seq<SegView>, s: SegView, macros: Map<Seq<char>, Seq<char>>)
    ensures
        segs_diags(segs.push(s), macros) == segs_diags(segs, macros) + seg_diags(s, macros),
    decreases segs.len(),
{
    if segs.len() == 0 {
        assert(segs.push(s)[0] == s);
        assert(segs.push(s).drop_first() =~= Seq::<SegView>::empty());
        assert(segs_diags(Seq::<SegView>::empty(), macros) == Seq::<Seq<char>>::empty());
        assert(segs_diags(segs.push(s), macros) =~= seg_diags(s, macros));
        assert(segs_diags(segs, macros) + seg_diags(s, macros) =~= seg_diags(s, macros));
    } else {
        assert(segs.push(s).drop_first() =~= segs.drop_first().push(s));
        lemma_segs_diags_push(segs.drop_first(), s, macros);
        assert(seg_diags(segs[0], macros) + (segs_diags(segs.drop_first(), macros) + seg_diags(
            s,
            macros,
        )) =~= (seg_diags(segs[0], macros) + segs_diags(segs.drop_first(), macros)) + seg_diags(
            s,
            macros,
        ));
    }
}

/// A sequence holding a math segment holds at least one.
proof fn lemma_count_math_at(segs: Seq<SegView>, i: int)
    requires
        0 <= i < segs.len(),
        segs[i] is Math,
    ensures
        count_math(segs) > 0,
    decreases segs.len(),
{
    if i > 0 {
        lemma_count_math_at(segs.drop_first(), i - 1);
    }
}

/// Appending one diagnostic extends the newline-joined message.
proof fn lemma_join_diags_push(ds: Seq<Seq<char>>, d: Seq<char>)
    ensures
        join_diags(ds.push(d)) == if ds.len() == 0 {
            d
        } else {
            join_diags(ds) + "\n"@ + d
        },
    decreases ds.len(),
{
    if ds.len() == 0 {
        assert(ds.push(d)[0] == d);
    } else {
        assert(ds.push(d).drop_first() =~= ds.drop_first().push(d));
        lemma_join_diags_push(ds.drop_first(), d);
        if ds.len() == 1 {
            assert(join_diags(ds.push(d)) == ds[0] + "\n"@ + d);
        } else {
            assert(ds[0] + "\n"@ + (join_diags(ds.drop_first()) + "\n"@ + d) =~= (ds[0] + "\n"@
                + join_diags(ds.drop_first())) + "\n"@ + d);
        }
    }
}

/// No left marker of the table occurs anywhere in the text.
pub open spec fn no_left_marker(text: Seq<char>, delims: Seq<DelimView>) -> bool {
    forall|p: int, i: int|
        0 <= i < delims.len() ==> !(#[trigger] matches_at(text, delims[i].left, p))
}

proof fn lemma_match_idx_none(text: Seq<char>, delims: Seq<DelimView>, p: int, ii: int)
    requires
        no_left_marker(text, delims),
    ensures
        crate::scanner::match_idx_at(text, delims, p, ii) is None,
    decreases delims.len() - ii,
{
    if ii < 0 || ii >= delims.len() {
    } else {
        lemma_match_idx_none(text, delims, p, ii + 1);
    }
}

proof fn lemma_find_left_none_all(text: Seq<char>, delims: Seq<DelimView>, p: int)
    requires
        no_left_marker(text, delims),
        0 <= p,
    ensures
        crate::scanner::find_left(text, delims, p) is None,
    decreases text.len() - p,
{
    if p >= text.len() {
    } else {
        lemma_match_idx_none(text, delims, p, 0);
        lemma_find_left_none_all(text, delims, p + 1);
    }
}

/// Identity law: text in which no left marker of the table occurs scans to
/// pure literal text, composes back to itself, and records no diagnostics,
/// under either error policy.
pub proof fn lemma_no_marker_identity(
    text: Seq<char>,
    delims: Seq<DelimView>,
    macros: Map<Seq<char>, Seq<char>>,
)
    requires
        delims_wf(delims),
        no_left_marker(text, delims),
    ensures
        segs_output(scan_from(text, delims, 0), macros) == text,
        segs_diags(scan_from(text, delims, 0), macros) == Seq::<Seq<char>>::empty(),
        count_math(scan_from(text, delims, 0)) == 0,
{
    lemma_find_left_none_all(text, delims, 0);
    let sv = scan_from(text, delims, 0);
    if text.len() == 0 {
        assert(sv =~= Seq::<SegView>::empty());
        assert(segs_output(sv, macros) =~= text);
    } else {
        let whole = SegView::Text { data: text.subrange(0, text.len() as int) };
        assert(sv =~= seq![whole]);
        assert(sv[0] == whole);
        assert(sv.drop_first() =~= Seq::<SegView>::empty());
        assert(segs_output(Seq::<SegView>::empty(), macros) == Seq::<char>::empty());
        assert(segs_diags(Seq::<SegView>::empty(), macros) == Seq::<Seq<char>>::empty());
        assert(count_math(Seq::<SegView>::empty()) == 0);
        assert(segs_output(sv, macros) =~= text);
        assert(segs_diags(sv, macros) =~= Seq::<Seq<char>>::empty());
    }
}

/// Folds scanned segments into the output document: literal text passes
/// through, accepted math becomes the engine's markup, rejected math and
/// unclosed markers become inline warnings and diagnostics. Under the strict
/// policy any diagnostic discards the output and fails with all diagnostics
/// newline-joined, in order; a non-syntax engine failure (only possible when
/// a math segment is present) fails immediately.
pub fn compose_segments(segs: &Vec<Segment>, strict: bool, macros: &HashMap<String, String>) -> (r:
    Result<String, ComposeError>)
    ensures
        ({
            let sv = segs_view(segs@);
            let m = macros.deep_view();
            let o = segs_output(sv, m);
            let d = segs_diags(sv, m);
            match r {
                Ok(out) => out@ == o && !(strict && d.len() > 0),
                Err(ComposeError::Aggregated { message }) => strict && d.len() > 0 && message@
                    == join_diags(d),
                Err(ComposeError::Engine { message }) => count_math(sv) > 0,
            }
        }),
{
    let ghost sv = segs_view(segs@);
    let ghost m = macros.deep_view();
    let mut out = String::new();
    let mut diags: Vec<String> = Vec::new();
    let mut i: usize = 0;
    while i < segs.len()
        invariant
            0 <= i <= segs.len(),
            sv == segs_view(segs@),
            sv.len() == segs@.len(),
            m == macros.deep_view(),
            out@ == segs_output(sv.take(i as int), m),
            diags.deep_view() == segs_diags(sv.take(i as int), m),
        decreases segs.len() - i,
    {
        proof {
            assert(sv[i as int] == segs@[i as int]@);
            assert(sv.take(i as int + 1) =~= sv.take(i as int).push(sv[i as int]));
            lemma_segs_output_push(sv.take(i as int), sv[i as int], m);
            lemma_segs_diags_push(sv.take(i as int), sv[i as int], m);
        }
        let ghost diags0 = diags.deep_view();
        match &segs[i] {
            Segment::Text { data } => {
                out.append(data.as_str());
            },
            Segment::Math { content, raw, display } => {
                match typeset(content.as_str(), *display, macros) {
                    Ok(html) => {
                        out.append(html.as_str());
                    },
                    Err(RenderError::Syntax { .. }) => {
                        let ghost out0 = out@;
                        out.append(" ***[KaTeX Warning] Fail to parse formula:*** ");
                        out.append(raw.as_str());
                        proof {
                            assert(out@ =~= out0 + (
                            " ***[KaTeX Warning] Fail to parse formula:*** "@ + raw@));
                        }
                        let mut dmsg = "Fail to parse formula: ".to_owned();
                        dmsg.append(raw.as_str());
                        diags.push(dmsg);
                        proof {
                            assert(diags.deep_view() =~= diags0.push(dmsg@));
                            assert(diags0.push(dmsg@) =~= diags0 + seg_diags(sv[i as int], m));
                        }
                    },
                    Err(RenderError::Fatal { message }) => {
                        proof {
                            lemma_count_math_at(sv, i as int);
                        }
                        return Err(ComposeError::Engine { message });
                    },
                }
            },
            Segment::Unclosed { marker } => {
                let ghost out0 = out@;
                out.append(" ***[KaTeX Warning] Unclosed delimiter ->*** ");
                out.append(marker.as_str());
                proof {
                    assert(out@ =~= out0 + (" ***[KaTeX Warning] Unclosed delimiter ->*** "@
                        + marker@));
                }
                let mut dmsg = "Unclosed delimiter: ".to_owned();
                dmsg.append(marker.as_str());
                diags.push(dmsg);
                proof {
                    assert(diags.deep_view() =~= diags0.push(dmsg@));
                    assert(diags0.push(dmsg@) =~= diags0 + seg_diags(sv[i as int], m));
                }
            },
        }
        i = i + 1;
    }
    proof {
        assert(sv.take(segs@.len() as int) =~= sv);
    }
    if strict && diags.len() > 0 {
        let ghost dd = diags.deep_view();
        let mut message = String::new();
        let mut k: usize = 0;
        while k < diags.len()
            invariant
                0 <= k <= diags.len(),
                dd == diags.deep_view(),
                dd.len() == diags@.len(),
                message@ == join_diags(dd.take(k as int)),
            decreases diags.len() - k,
        {
            proof {
                assert(dd[k as int] == diags@[k as int]@);
                assert(dd.take(k as int + 1) =~= dd.take(k as int).push(dd[k as int]));
                lemma_join_diags_push(dd.take(k as int), dd[k as int]);
            }
            if k > 0 {
                message.append("\n");
            }
            message.append(diags[k].as_str());
            k = k + 1;
        }
        proof {
            assert(dd.take(diags@.len() as int) =~= dd);
        }
        return Err(ComposeError::Aggregated { message });
    }
    Ok(out)
}

/// Composes a whole document: scans the text against the context's delimiter
/// table and folds the segments, unless rendering is disabled, in which case
/// the text passes through unchanged. Text in which no left marker occurs
/// also composes to itself, whatever the policy.
pub fn compose(text: &str, ctx: &RenderContext) -> (r: Result<String, ComposeError>)
    requires
        delims_wf(delims_view(ctx.delimiters@)),
    ensures
        ({
            let sv = scan_from(text@, delims_view(ctx.delimiters@), 0);
            let m = ctx.macros.deep_view();
            let o = segs_output(sv, m);
            let d = segs_diags(sv, m);
            &&& !ctx.enabled ==> (r matches Ok(out) && out@ == text@)
            &&& ctx.enabled ==> match r {
                Ok(out) => out@ == o && !(ctx.strict && d.len() > 0),
                Err(ComposeError::Aggregated { message }) => ctx.strict && d.len() > 0 && message@
                    == join_diags(d),
                Err(ComposeError::Engine { message }) => count_math(sv) > 0,
            }
            &&& ctx.enabled && no_left_marker(text@, delims_view(ctx.delimiters@)) ==> (r matches Ok(
                out,
            ) && out@ == text@)
        }),
{
    if !ctx.enabled {
        return Ok(text.to_owned());
    }
    let segs = segment(text, &ctx.delimiters);
    let r = compose_segments(&segs, ctx.strict, &ctx.macros);
    proof {
        if no_left_marker(text@, delims_view(ctx.delimiters@)) {
            lemma_no_marker_identity(
                text@,
                delims_view(ctx.delimiters@),
                ctx.macros.deep_view(),
            );
        }
    }
    r
}

} // verus!
