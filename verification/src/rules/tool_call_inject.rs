//! Tool or function calls smuggled into the text.
use vstd::prelude::*;
use crate::findings::{views, Finding, FindingView, RiskLevel};
use crate::pattern::{pattern_views, scan_table, table_findings, PatternSpec, PatternView};
use crate::rule::Rule;

verus! {

pub const NAME: &'static str = "tool_call_inject";

pub const FUNCTION_CALL_JSON: &'static str = r#"(?i)"function_call"\s*:\s*\{"#;

pub const TOOL_CALLS_JSON: &'static str = r#"(?i)"tool_calls?"\s*:\s*[\[\{]"#;

pub const FUNCTION_CALL_MARKER: &'static str = r"(?i)\bfunction_call\s*:\s*\w";

pub const TOOL_CALL_TAG: &'static str = r"(?i)<\s*(?:function|tool)[_\-]?call\b[^>]*>";

pub const NAME_ARGUMENTS: &'static str = r#"(?i)"name"\s*:\s*"[A-Za-z0-9_\-]{1,64}"\s*,\s*"arguments"\s*:"#;

pub const TOOL_USE: &'static str = r#"(?i)\{\s*"type"\s*:\s*"tool_use""#;

/// The patterns of the rule, in the order in which they are tried.
pub open spec fn patterns_spec() -> Seq<PatternView> {
    seq![
        PatternView { source: FUNCTION_CALL_JSON@, message: "embedded function_call JSON"@, risk: RiskLevel::High },
        PatternView { source: TOOL_CALLS_JSON@, message: "embedded tool_calls JSON"@, risk: RiskLevel::High },
        PatternView { source: FUNCTION_CALL_MARKER@, message: "function_call marker"@, risk: RiskLevel::Medium },
        PatternView { source: TOOL_CALL_TAG@, message: "tool-call XML tag injection"@, risk: RiskLevel::High },
        PatternView { source: NAME_ARGUMENTS@, message: "OpenAI-style tool invocation payload"@, risk: RiskLevel::High },
        PatternView { source: TOOL_USE@, message: "Anthropic-style tool_use payload"@, risk: RiskLevel::High },
    ]
}

fn patterns() -> (t: Vec<PatternSpec>)
    ensures
        pattern_views(t@) == patterns_spec(),
{
    let t = vec![
        PatternSpec { source: FUNCTION_CALL_JSON, message: "embedded function_call JSON", risk: RiskLevel::High },
        PatternSpec { source: TOOL_CALLS_JSON, message: "embedded tool_calls JSON", risk: RiskLevel::High },
        PatternSpec { source: FUNCTION_CALL_MARKER, message: "function_call marker", risk: RiskLevel::Medium },
        PatternSpec { source: TOOL_CALL_TAG, message: "tool-call XML tag injection", risk: RiskLevel::High },
        PatternSpec { source: NAME_ARGUMENTS, message: "OpenAI-style tool invocation payload", risk: RiskLevel::High },
        PatternSpec { source: TOOL_USE, message: "Anthropic-style tool_use payload", risk: RiskLevel::High },
    ];
    assert(pattern_views(t@) =~= patterns_spec());
    t
}

/// Detects embedded function-call JSON, tool-call XML tags and provider-style tool invocation payloads.
pub struct ToolCallInject;

impl Rule for ToolCallInject {
    open spec fn spec_name(&self) -> Seq<char> {
        NAME@
    }

    open spec fn scan_spec(&self, text: Seq<char>, out: Seq<FindingView>) -> bool {
        out == table_findings(NAME@, patterns_spec(), text)
    }

    fn name(&self) -> (n: &str) {
        NAME
    }

    fn scan(&self, text: &str) -> (out: Vec<Finding>)
        ensures
            views(out@) == table_findings(NAME@, patterns_spec(), text@),
    {
        scan_table(NAME, &patterns(), text)
    }
}

} // verus!
