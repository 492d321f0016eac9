//! Chat-template tokens and role markup that break out of the prompt format.
use vstd::prelude::*;
use crate::findings::{views, Finding, FindingView, RiskLevel};
use crate::pattern::{pattern_views, scan_table, table_findings, PatternSpec, PatternView};
use crate::rule::Rule;

verus! {

pub const NAME: &'static str = "format_break";

pub const CONTROL_TOKEN: &'static str = r"(?i)<\|(?:im_start|im_end|endoftext|end_of_text|system|user|assistant|start_header_id|end_header_id|eot_id)\|>";

pub const ROLE_TAG: &'static str = r"(?i)</?\s*(?:system|assistant|user|developer|tool|tools|function|functions|instructions?)\s*>";

pub const INST_BRACKET: &'static str = r"(?i)\[/?\s*(?:INST|SYS|S|/S)\s*\]";

pub const MARKDOWN_HEADER: &'static str = r"(?i)###\s*(?:system|instructions?|new\s+(?:instructions?|prompt))\b";

pub const CODE_FENCE: &'static str = r"(?i)```\s*(?:system|assistant|developer|instructions?)\b";

/// The patterns of the rule, in the order in which they are tried.
pub open spec fn patterns_spec() -> Seq<PatternView> {
    seq![
        PatternView { source: CONTROL_TOKEN@, message: "chat-template control token"@, risk: RiskLevel::High },
        PatternView { source: ROLE_TAG@, message: "role XML tag injection"@, risk: RiskLevel::High },
        PatternView { source: INST_BRACKET@, message: "instruction-tuned bracket token"@, risk: RiskLevel::High },
        PatternView { source: MARKDOWN_HEADER@, message: "markdown header role injection"@, risk: RiskLevel::Medium },
        PatternView { source: CODE_FENCE@, message: "code-fence role injection"@, risk: RiskLevel::Medium },
    ]
}

fn patterns() -> (t: Vec<PatternSpec>)
    ensures
        pattern_views(t@) == patterns_spec(),
{
    let t = vec![
        PatternSpec { source: CONTROL_TOKEN, message: "chat-template control token", risk: RiskLevel::High },
        PatternSpec { source: ROLE_TAG, message: "role XML tag injection", risk: RiskLevel::High },
        PatternSpec { source: INST_BRACKET, message: "instruction-tuned bracket token", risk: RiskLevel::High },
        PatternSpec { source: MARKDOWN_HEADER, message: "markdown header role injection", risk: RiskLevel::Medium },
        PatternSpec { source: CODE_FENCE, message: "code-fence role injection", risk: RiskLevel::Medium },
    ];
    assert(pattern_views(t@) =~= patterns_spec());
    t
}

/// Detects chat-template control tokens, role XML tags, instruction brackets and role headers in markdown.
pub struct FormatBreak;

impl Rule for FormatBreak {
    open spec fn spec_name(&self) -> Seq<char> {
        NAME@
    }

    open spec fn scan_spec(&self, text: Seq<char>, out: Seq<FindingView>) -> bool {
        out == table_findings(NAME@, patterns_spec(), text)
    }

    fn name(&self) -> (n: &str) {
        NAME
    }

    fn scan(&self, text: &str) -> (out: Vec<Finding>)
        ensures
            views(out@) == table_findings(NAME@, patterns_spec(), text@),
    {
        scan_table(NAME, &patterns(), text)
    }
}

} // verus!
