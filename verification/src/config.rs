//! User-facing configuration for the KaTeX rendering pipeline.

use std::collections::HashMap;
use vstd::prelude::*;

verus! {

/// Configuration for KaTeX rendering, as populated by the surrounding
/// configuration subsystem.
#[derive(Clone, Debug)]
pub struct Katex {
    /// css cdn url, must be set properly, or your formulas won't be rendered properly
    pub css_url: String,
    /// css integrity, like above
    pub css_integrity: String,
    /// default `false`, if `true`, wrong KaTeX formulas will cause panic. else it won't be rendered
    pub restrict: bool,
    /// Wether rendering KaTeX code block
    pub codeblock: bool,
    /// Global macros
    pub macros: HashMap<String, String>,
}

impl Default for Katex {
    fn default() -> (r: Self)
        ensures
            r.css_url@ == "https://cdn.jsdelivr.net/npm/katex@0.15.2/dist/katex.min.css"@,
            r.css_integrity@ == "sha384-MlJdn/WNKDGXveldHDdyRP1R4CTHr3FeuDNfhsLPYrq2t0UBkUdK2jyTnXPEK1NQ"@,
            r.restrict == false,
            r.codeblock == true,
            r.macros@ == Map::<String, String>::empty(),
    {
        Katex {
            codeblock: true,
            restrict: false,
            css_url: "https://cdn.jsdelivr.net/npm/katex@0.15.2/dist/katex.min.css".to_owned(),
            css_integrity:
                "sha384-MlJdn/WNKDGXveldHDdyRP1R4CTHr3FeuDNfhsLPYrq2t0UBkUdK2jyTnXPEK1NQ".to_owned(),
            macros: HashMap::new(),
        }
    }
}

} // verus!
