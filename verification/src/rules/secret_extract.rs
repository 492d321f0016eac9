//! Probes for the system prompt, the tool list or credentials.
use vstd::prelude::*;
use crate::findings::{views, Finding, FindingView, RiskLevel};
use crate::pattern::{pattern_views, scan_table, table_findings, PatternSpec, PatternView};
use crate::rule::Rule;

verus! {

pub const NAME: &'static str = "secret_extract";

pub const PROMPT_PROBE: &'static str = r"(?i)\b(?:what|tell\s+me|show|print|reveal|repeat|output|display|give\s+me)\b[^.\n]{0,60}\b(?:your|the)\s+(?:system\s+)?(?:prompt|instructions?|rules?|guidelines?|configuration)\b";

pub const TRANSCRIPT_DUMP: &'static str = r"(?i)\b(?:repeat|print|output|echo|display)\s+(?:everything|all)\s+(?:above|before|prior)\b";

pub const TOOLS_QUESTION: &'static str = r"(?i)\bwhat\s+(?:tools?|functions?|apis?|capabilit(?:y|ies))\s+(?:do\s+)?you\s+(?:have|use|can\s+(?:call|access))\b";

pub const TOOLS_LIST: &'static str = r"(?i)\b(?:list|enumerate|show)\s+(?:all\s+)?(?:your\s+)?(?:tools?|functions?|apis?|capabilit(?:y|ies))\b";

pub const CREDENTIALS: &'static str = r"(?i)\b(?:reveal|leak|expose|share)\s+(?:your\s+)?(?:secret|api[_\s-]?key|password|token|credential)s?\b";

pub const CONTEXT_DUMP: &'static str = r"(?i)\bprint\s+(?:the\s+)?(?:contents?\s+of\s+)?(?:above|prior|earlier)\s+(?:message|conversation|context)s?\b";

/// The patterns of the rule, in the order in which they are tried.
pub open spec fn patterns_spec() -> Seq<PatternView> {
    seq![
        PatternView { source: PROMPT_PROBE@, message: "system-prompt extraction probe"@, risk: RiskLevel::High },
        PatternView { source: TRANSCRIPT_DUMP@, message: "transcript dump probe"@, risk: RiskLevel::High },
        PatternView { source: TOOLS_QUESTION@, message: "tool-list enumeration probe"@, risk: RiskLevel::Medium },
        PatternView { source: TOOLS_LIST@, message: "tool-list enumeration probe"@, risk: RiskLevel::Medium },
        PatternView { source: CREDENTIALS@, message: "credential extraction probe"@, risk: RiskLevel::High },
        PatternView { source: CONTEXT_DUMP@, message: "context dump probe"@, risk: RiskLevel::High },
    ]
}

fn patterns() -> (t: Vec<PatternSpec>)
    ensures
        pattern_views(t@) == patterns_spec(),
{
    let t = vec![
        PatternSpec { source: PROMPT_PROBE, message: "system-prompt extraction probe", risk: RiskLevel::High },
        PatternSpec { source: TRANSCRIPT_DUMP, message: "transcript dump probe", risk: RiskLevel::High },
        PatternSpec { source: TOOLS_QUESTION, message: "tool-list enumeration probe", risk: RiskLevel::Medium },
        PatternSpec { source: TOOLS_LIST, message: "tool-list enumeration probe", risk: RiskLevel::Medium },
        PatternSpec { source: CREDENTIALS, message: "credential extraction probe", risk: RiskLevel::High },
        PatternSpec { source: CONTEXT_DUMP, message: "context dump probe", risk: RiskLevel::High },
    ];
    assert(pattern_views(t@) =~= patterns_spec());
    t
}

/// Detects questions that try to extract the system prompt, the transcript, the tool list or secrets.
pub struct SecretExtract;

impl Rule for SecretExtract {
    open spec fn spec_name(&self) -> Seq<char> {
        NAME@
    }

    open spec fn scan_spec(&self, text: Seq<char>, out: Seq<FindingView>) -> bool {
        out == table_findings(NAME@, patterns_spec(), text)
    }

    fn name(&self) -> (n: &str) {
        NAME
    }

    fn scan(&self, text: &str) -> (out: Vec<Finding>)
        ensures
            views(out@) == table_findings(NAME@, patterns_spec(), text@),
    {
        scan_table(NAME, &patterns(), text)
    }
}

} // verus!
