//! Attempts to override the model's role or instructions.
use vstd::prelude::*;
use crate::findings::{views, Finding, FindingView, RiskLevel};
use crate::pattern::{pattern_views, scan_table, table_findings, PatternSpec, PatternView};
use crate::rule::Rule;

verus! {

pub const NAME: &'static str = "role_override";

pub const IGNORE_PREVIOUS: &'static str = r"(?i)\b(?:ignore|disregard|forget|override)\b[^.\n]{0,40}\b(?:previous|prior|above|earlier|all)\b[^.\n]{0,40}\b(?:instruction|instructions|prompt|prompts|rule|rules|message|messages)\b";

pub const IGNORE_EVERYTHING: &'static str = r"(?i)\b(?:ignore|disregard|forget)\s+(?:everything|all|what(?:'s|\s+is)?\s+(?:said|written))\s+(?:above|before|prior|earlier)\b";

pub const IGNORE_SYSTEM: &'static str = r"(?i)\b(?:ignore|disregard|forget)\b[^.\n]{0,20}\b(?:system|developer)\b[^.\n]{0,20}\b(?:prompt|instruction|instructions|message)\b";

pub const YOU_ARE_NOW: &'static str = r"(?i)\byou\s+are\s+now\b[^.\n]{0,80}";

pub const ACT_AS: &'static str = r"(?i)\b(?:act|pretend|roleplay|role-play)\s+as\b[^.\n]{0,60}";

pub const ROLE_HEADER: &'static str = r"(?im)(?:^|\n)\s*(?:system|assistant|developer)\s*:\s*\S";

pub const NEW_INSTRUCTIONS: &'static str = r"(?i)\bnew\s+(?:system\s+)?(?:instructions?|prompt|rules?)\s*[:\-]";

/// The patterns of the rule, in the order in which they are tried.
pub open spec fn patterns_spec() -> Seq<PatternView> {
    seq![
        PatternView { source: IGNORE_PREVIOUS@, message: "instruction override attempt"@, risk: RiskLevel::High },
        PatternView { source: IGNORE_EVERYTHING@, message: "instruction override attempt"@, risk: RiskLevel::High },
        PatternView { source: IGNORE_SYSTEM@, message: "system prompt override attempt"@, risk: RiskLevel::High },
        PatternView { source: YOU_ARE_NOW@, message: "persona reassignment attempt"@, risk: RiskLevel::Medium },
        PatternView { source: ACT_AS@, message: "roleplay coercion attempt"@, risk: RiskLevel::Medium },
        PatternView { source: ROLE_HEADER@, message: "inline role header injection"@, risk: RiskLevel::High },
        PatternView { source: NEW_INSTRUCTIONS@, message: "new-instructions header injection"@, risk: RiskLevel::High },
    ]
}

fn patterns() -> (t: Vec<PatternSpec>)
    ensures
        pattern_views(t@) == patterns_spec(),
{
    let t = vec![
        PatternSpec { source: IGNORE_PREVIOUS, message: "instruction override attempt", risk: RiskLevel::High },
        PatternSpec { source: IGNORE_EVERYTHING, message: "instruction override attempt", risk: RiskLevel::High },
        PatternSpec { source: IGNORE_SYSTEM, message: "system prompt override attempt", risk: RiskLevel::High },
        PatternSpec { source: YOU_ARE_NOW, message: "persona reassignment attempt", risk: RiskLevel::Medium },
        PatternSpec { source: ACT_AS, message: "roleplay coercion attempt", risk: RiskLevel::Medium },
        PatternSpec { source: ROLE_HEADER, message: "inline role header injection", risk: RiskLevel::High },
        PatternSpec { source: NEW_INSTRUCTIONS, message: "new-instructions header injection", risk: RiskLevel::High },
    ];
    assert(pattern_views(t@) =~= patterns_spec());
    t
}

/// Detects "ignore previous instructions", persona reassignment, roleplay
/// coercion and injected role headers.
pub struct RoleOverride;

impl Rule for RoleOverride {
    open spec fn spec_name(&self) -> Seq<char> {
        NAME@
    }

    open spec fn scan_spec(&self, text: Seq<char>, out: Seq<FindingView>) -> bool {
        out == table_findings(NAME@, patterns_spec(), text)
    }

    fn name(&self) -> (n: &str) {
        NAME
    }

    fn scan(&self, text: &str) -> (out: Vec<Finding>)
        ensures
            views(out@) == table_findings(NAME@, patterns_spec(), text@),
    {
        scan_table(NAME, &patterns(), text)
    }
}

} // verus!
