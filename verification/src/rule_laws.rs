//! What the built-in rules report, stated against their detection tables
//! (patterns, messages, risks, hidden characters) written out here, and
//! proved of the rules' specifications.
use vstd::prelude::*;
use vstd::utf8::*;
use crate::error::ShieldBlocked;
use crate::findings::{join_with, messages, views, FindingView, RiskLevel};
use crate::laws::law_max_risk;
use crate::pattern::{match_finding, pattern_findings, regex_compiles, regex_match_spans, table_findings, PatternView};
use crate::rule::Rule;
use crate::rules::delimiter_smuggle::{classify_spec, hidden_char_findings};
use crate::rules::encoded_payload::{decode_payload, encoded_findings, inner_findings, payload_finding, payload_findings, Encoding, BASE64_RE, HEX_RE};
use crate::rules::{delimiter_smuggle, format_break, role_override, secret_extract, tool_call_inject};
use crate::rules::DelimiterSmuggle;
use crate::shield::{concat_all, is_report_of, Shield};
use crate::sorting::lemma_stable_sorted_permutes;

verus! {

broadcast use vstd::utf8::group_utf8_lib;

/// The role override patterns, in order: regular expression, message, risk.
pub open spec fn role_override_table() -> Seq<PatternView> {
    seq![
        PatternView { source: r"(?i)\b(?:ignore|disregard|forget|override)\b[^.\n]{0,40}\b(?:previous|prior|above|earlier|all)\b[^.\n]{0,40}\b(?:instruction|instructions|prompt|prompts|rule|rules|message|messages)\b"@, message: "instruction override attempt"@, risk: RiskLevel::High },
        PatternView { source: r"(?i)\b(?:ignore|disregard|forget)\s+(?:everything|all|what(?:'s|\s+is)?\s+(?:said|written))\s+(?:above|before|prior|earlier)\b"@, message: "instruction override attempt"@, risk: RiskLevel::High },
        PatternView { source: r"(?i)\b(?:ignore|disregard|forget)\b[^.\n]{0,20}\b(?:system|developer)\b[^.\n]{0,20}\b(?:prompt|instruction|instructions|message)\b"@, message: "system prompt override attempt"@, risk: RiskLevel::High },
        PatternView { source: r"(?i)\byou\s+are\s+now\b[^.\n]{0,80}"@, message: "persona reassignment attempt"@, risk: RiskLevel::Medium },
        PatternView { source: r"(?i)\b(?:act|pretend|roleplay|role-play)\s+as\b[^.\n]{0,60}"@, message: "roleplay coercion attempt"@, risk: RiskLevel::Medium },
        PatternView { source: r"(?im)(?:^|\n)\s*(?:system|assistant|developer)\s*:\s*\S"@, message: "inline role header injection"@, risk: RiskLevel::High },
        PatternView { source: r"(?i)\bnew\s+(?:system\s+)?(?:instructions?|prompt|rules?)\s*[:\-]"@, message: "new-instructions header injection"@, risk: RiskLevel::High },
    ]
}

/// The role override rule uses exactly the role override patterns.
pub proof fn law_role_override_table()
    ensures
        role_override::patterns_spec() == role_override_table(),
        role_override::NAME@ == "role_override"@,
{
    assert(role_override::patterns_spec() =~= role_override_table());
}

/// The tool-call injection patterns, in order: regular expression, message, risk.
pub open spec fn tool_call_inject_table() -> Seq<PatternView> {
    seq![
        PatternView { source: r#"(?i)"function_call"\s*:\s*\{"#@, message: "embedded function_call JSON"@, risk: RiskLevel::High },
        PatternView { source: r#"(?i)"tool_calls?"\s*:\s*[\[\{]"#@, message: "embedded tool_calls JSON"@, risk: RiskLevel::High },
        PatternView { source: r"(?i)\bfunction_call\s*:\s*\w"@, message: "function_call marker"@, risk: RiskLevel::Medium },
        PatternView { source: r"(?i)<\s*(?:function|tool)[_\-]?call\b[^>]*>"@, message: "tool-call XML tag injection"@, risk: RiskLevel::High },
        PatternView { source: r#"(?i)"name"\s*:\s*"[A-Za-z0-9_\-]{1,64}"\s*,\s*"arguments"\s*:"#@, message: "OpenAI-style tool invocation payload"@, risk: RiskLevel::High },
        PatternView { source: r#"(?i)\{\s*"type"\s*:\s*"tool_use""#@, message: "Anthropic-style tool_use payload"@, risk: RiskLevel::High },
    ]
}

/// The tool-call injection rule uses exactly the tool-call injection patterns.
pub proof fn law_tool_call_inject_table()
    ensures
        tool_call_inject::patterns_spec() == tool_call_inject_table(),
        tool_call_inject::NAME@ == "tool_call_inject"@,
{
    assert(tool_call_inject::patterns_spec() =~= tool_call_inject_table());
}

/// The secret extraction patterns, in order: regular expression, message, risk.
pub open spec fn secret_extract_table() -> Seq<PatternView> {
    seq![
        PatternView { source: r"(?i)\b(?:what|tell\s+me|show|print|reveal|repeat|output|display|give\s+me)\b[^.\n]{0,60}\b(?:your|the)\s+(?:system\s+)?(?:prompt|instructions?|rules?|guidelines?|configuration)\b"@, message: "system-prompt extraction probe"@, risk: RiskLevel::High },
        PatternView { source: r"(?i)\b(?:repeat|print|output|echo|display)\s+(?:everything|all)\s+(?:above|before|prior)\b"@, message: "transcript dump probe"@, risk: RiskLevel::High },
        PatternView { source: r"(?i)\bwhat\s+(?:tools?|functions?|apis?|capabilit(?:y|ies))\s+(?:do\s+)?you\s+(?:have|use|can\s+(?:call|access))\b"@, message: "tool-list enumeration probe"@, risk: RiskLevel::Medium },
        PatternView { source: r"(?i)\b(?:list|enumerate|show)\s+(?:all\s+)?(?:your\s+)?(?:tools?|functions?|apis?|capabilit(?:y|ies))\b"@, message: "tool-list enumeration probe"@, risk: RiskLevel::Medium },
        PatternView { source: r"(?i)\b(?:reveal|leak|expose|share)\s+(?:your\s+)?(?:secret|api[_\s-]?key|password|token|credential)s?\b"@, message: "credential extraction probe"@, risk: RiskLevel::High },
        PatternView { source: r"(?i)\bprint\s+(?:the\s+)?(?:contents?\s+of\s+)?(?:above|prior|earlier)\s+(?:message|conversation|context)s?\b"@, message: "context dump probe"@, risk: RiskLevel::High },
    ]
}

/// The secret extraction rule uses exactly the secret extraction patterns.
pub proof fn law_secret_extract_table()
    ensures
        secret_extract::patterns_spec() == secret_extract_table(),
        secret_extract::NAME@ == "secret_extract"@,
{
    assert(secret_extract::patterns_spec() =~= secret_extract_table());
}

/// The format break patterns, in order: regular expression, message, risk.
pub open spec fn format_break_table() -> Seq<PatternView> {
    seq![
        PatternView { source: r"(?i)<\|(?:im_start|im_end|endoftext|end_of_text|system|user|assistant|start_header_id|end_header_id|eot_id)\|>"@, message: "chat-template control token"@, risk: RiskLevel::High },
        PatternView { source: r"(?i)</?\s*(?:system|assistant|user|developer|tool|tools|function|functions|instructions?)\s*>"@, message: "role XML tag injection"@, risk: RiskLevel::High },
        PatternView { source: r"(?i)\[/?\s*(?:INST|SYS|S|/S)\s*\]"@, message: "instruction-tuned bracket token"@, risk: RiskLevel::High },
        PatternView { source: r"(?i)###\s*(?:system|instructions?|new\s+(?:instructions?|prompt))\b"@, message: "markdown header role injection"@, risk: RiskLevel::Medium },
        PatternView { source: r"(?i)```\s*(?:system|assistant|developer|instructions?)\b"@, message: "code-fence role injection"@, risk: RiskLevel::Medium },
    ]
}

/// The format break rule uses exactly the format break patterns.
pub proof fn law_format_break_table()
    ensures
        format_break::patterns_spec() == format_break_table(),
        format_break::NAME@ == "format_break"@,
{
    assert(format_break::patterns_spec() =~= format_break_table());
}

/// The finding of rule `rule` for a match `span` of pattern `p`: on the
/// match's span, with the pattern's message and risk.
pub open spec fn reported_match(rule: Seq<char>, p: PatternView, span: (usize, usize)) -> FindingView {
    FindingView { rule, start: span.0 as int, end: span.1 as int, message: p.message, risk: p.risk }
}

/// Every match of every compiling pattern of a table is reported: on its
/// span, with the pattern's message and risk.
pub proof fn law_table_reports_every_match(rule: Seq<char>, table: Seq<PatternView>, text: Seq<char>, k: int, j: int)
    requires
        0 <= k < table.len(),
        regex_compiles(table[k].source),
        0 <= j < regex_match_spans(table[k].source, text).len(),
    ensures
        table_findings(rule, table, text).contains(
            reported_match(rule, table[k], regex_match_spans(table[k].source, text)[j]),
        ),
    decreases table.len(),
{
    let t = table.drop_last();
    let a = table_findings(rule, t, text);
    let b = pattern_findings(rule, table.last(), text);
    let f = reported_match(rule, table[k], regex_match_spans(table[k].source, text)[j]);
    assert(f == match_finding(rule, table[k].message, table[k].risk, regex_match_spans(table[k].source, text)[j]));
    assert(table_findings(rule, table, text) == a + b);
    if k < t.len() {
        assert(t[k] == table[k]);
        law_table_reports_every_match(rule, t, text, k, j);
        let i = choose|i: int| 0 <= i < a.len() && a[i] == f;
        assert((a + b)[i] == f);
    } else {
        assert(table.last() == table[k]);
        assert(b[j] == f);
        assert((a + b)[a.len() + j] == f);
    }
}

/// A finding of one rule's output is among the findings of all the rules.
proof fn lemma_concat_all_contains(outs: Seq<Seq<FindingView>>, i: int, f: FindingView)
    requires
        0 <= i < outs.len(),
        outs[i].contains(f),
    ensures
        concat_all(outs).contains(f),
    decreases outs.len(),
{
    let a = concat_all(outs.drop_last());
    let b = outs.last();
    assert(concat_all(outs) == a + b);
    if i < outs.len() - 1 {
        assert(outs.drop_last()[i] == outs[i]);
        lemma_concat_all_contains(outs.drop_last(), i, f);
        let m = choose|m: int| 0 <= m < a.len() && a[m] == f;
        assert((a + b)[m] == f);
    } else {
        let m = choose|m: int| 0 <= m < b.len() && b[m] == f;
        assert((a + b)[a.len() + m] == f);
    }
}

/// A shield refuses a text on which one of its rules is bound to report a
/// finding whose risk reaches the block threshold, whatever the other rules
/// find.
pub proof fn law_refuses_when_a_rule_must_report(
    shield: &Shield,
    text: Seq<char>,
    r: Result<String, ShieldBlocked>,
    i: int,
    f: FindingView,
)
    requires
        0 <= i < shield.rule_count(),
        forall|out: Seq<FindingView>| #[trigger] shield.rule_scans(i, text, out) ==> out.contains(f),
        f.risk.reaches(shield.block_level()),
        shield.sanitizes_to(text, r),
    ensures
        r is Err,
{
    if r is Ok {
        let s = r->Ok_0;
        let report = choose|report: crate::findings::ScanReport|
            {
                &&& shield.scans_to(text, report)
                &&& !report.risk.reaches(shield.block_level())
                &&& s@ == report.redacted@
            };
        let outs = choose|outs: Seq<Seq<FindingView>>|
            {
                &&& shield.rule_outputs(text, outs)
                &&& is_report_of(report, text, concat_all(outs), shield.redact_level())
            };
        assert(shield.rule_scans(i, text, outs[i]));
        lemma_concat_all_contains(outs, i, f);
        let v = views(report.findings@);
        lemma_stable_sorted_permutes(v, concat_all(outs));
        assert(v.contains(f)) by {
            broadcast use vstd::seq_lib::group_to_multiset_ensures;

            assert(concat_all(outs).to_multiset().count(f) > 0);
            assert(v.to_multiset().count(f) > 0);
        }
        let m = choose|m: int| 0 <= m < v.len() && v[m] == f;
        law_max_risk(v);
        assert(report.risk.reaches(v[m].risk));
    }
}

/// The pattern table of the `i`-th built-in rule, for the four rules made
/// of patterns.
pub open spec fn builtin_table(i: int) -> Seq<PatternView> {
    if i == 0 {
        role_override_table()
    } else if i == 1 {
        tool_call_inject_table()
    } else if i == 2 {
        secret_extract_table()
    } else {
        format_break_table()
    }
}

/// The name of the `i`-th built-in rule.
pub open spec fn builtin_name(i: int) -> Seq<char> {
    if i == 0 {
        "role_override"@
    } else if i == 1 {
        "tool_call_inject"@
    } else if i == 2 {
        "secret_extract"@
    } else if i == 3 {
        "format_break"@
    } else if i == 4 {
        "delimiter_smuggle"@
    } else {
        "encoded_payload"@
    }
}

/// In a shield with the built-in rules, each of the four pattern rules
/// reports every match of each of its patterns, on the match's span, with
/// the pattern's message and risk.
pub proof fn law_builtin_reports_every_match(shield: &Shield, text: Seq<char>, i: int, k: int, j: int)
    requires
        shield.has_builtin_rules(),
        0 <= i < 4,
        0 <= k < builtin_table(i).len(),
        regex_compiles(builtin_table(i)[k].source),
        0 <= j < regex_match_spans(builtin_table(i)[k].source, text).len(),
    ensures
        forall|out: Seq<FindingView>|
            #[trigger] shield.rule_scans(i, text, out) ==> out.contains(
                reported_match(builtin_name(i), builtin_table(i)[k], regex_match_spans(builtin_table(i)[k].source, text)[j]),
            ),
{
    let t = builtin_table(i);
    if i == 0 {
        law_role_override_table();
        law_table_reports_every_match(role_override::NAME@, t, text, k, j);
    } else if i == 1 {
        law_tool_call_inject_table();
        law_table_reports_every_match(tool_call_inject::NAME@, t, text, k, j);
    } else if i == 2 {
        law_secret_extract_table();
        law_table_reports_every_match(secret_extract::NAME@, t, text, k, j);
    } else {
        law_format_break_table();
        law_table_reports_every_match(format_break::NAME@, t, text, k, j);
    }
}

/// A shield with the built-in rules that blocks from `High` refuses every
/// text in which a `High` pattern of a pattern rule matches.
pub proof fn law_builtin_refuses_high_match(
    shield: &Shield,
    text: Seq<char>,
    r: Result<String, ShieldBlocked>,
    i: int,
    k: int,
)
    requires
        shield.has_builtin_rules(),
        shield.block_level() == RiskLevel::High,
        shield.sanitizes_to(text, r),
        0 <= i < 4,
        0 <= k < builtin_table(i).len(),
        builtin_table(i)[k].risk == RiskLevel::High,
        regex_compiles(builtin_table(i)[k].source),
        regex_match_spans(builtin_table(i)[k].source, text).len() > 0,
    ensures
        r is Err,
{
    law_builtin_reports_every_match(shield, text, i, k, 0);
    let f = reported_match(builtin_name(i), builtin_table(i)[k], regex_match_spans(builtin_table(i)[k].source, text)[0]);
    law_refuses_when_a_rule_must_report(shield, text, r, i, f);
}

/// The hidden characters: bidi embeddings, overrides and isolates (`High`),
/// zero-width characters, the word joiner, the byte-order mark and the
/// directional marks (`Medium`), each with its label.
pub open spec fn hidden_table() -> Seq<(char, Seq<char>, RiskLevel)> {
    seq![
        ('\u{202A}', "left-to-right embedding (bidi)"@, RiskLevel::High),
        ('\u{202B}', "right-to-left embedding (bidi)"@, RiskLevel::High),
        ('\u{202C}', "pop directional formatting (bidi)"@, RiskLevel::High),
        ('\u{202D}', "left-to-right override (bidi)"@, RiskLevel::High),
        ('\u{202E}', "right-to-left override (bidi)"@, RiskLevel::High),
        ('\u{2066}', "left-to-right isolate (bidi)"@, RiskLevel::High),
        ('\u{2067}', "right-to-left isolate (bidi)"@, RiskLevel::High),
        ('\u{2068}', "first-strong isolate (bidi)"@, RiskLevel::High),
        ('\u{2069}', "pop directional isolate (bidi)"@, RiskLevel::High),
        ('\u{200B}', "zero-width space"@, RiskLevel::Medium),
        ('\u{200C}', "zero-width non-joiner"@, RiskLevel::Medium),
        ('\u{200D}', "zero-width joiner"@, RiskLevel::Medium),
        ('\u{2060}', "word joiner"@, RiskLevel::Medium),
        ('\u{FEFF}', "byte-order mark / zero-width no-break space"@, RiskLevel::Medium),
        ('\u{200E}', "left-to-right mark"@, RiskLevel::Medium),
        ('\u{200F}', "right-to-left mark"@, RiskLevel::Medium),
    ]
}

/// The delimiter rule classifies exactly the hidden characters, each with
/// its label and risk.
pub proof fn law_hidden_table()
    ensures
        hidden_table().len() == 16,
        forall|i: int|
            0 <= i < 16 ==> classify_spec(#[trigger] hidden_table()[i].0) == Some(
                (hidden_table()[i].1, hidden_table()[i].2),
            ),
        forall|ch: char|
            #[trigger] classify_spec(ch) is Some ==> exists|i: int| 0 <= i < 16 && #[trigger] hidden_table()[i].0 == ch,
        delimiter_smuggle::NAME@ == "delimiter_smuggle"@,
        delimiter_smuggle::MESSAGE_PREFIX@ == "hidden character: "@,
{
    let t = hidden_table();
    assert forall|ch: char| #[trigger] classify_spec(ch) is Some implies exists|i: int|
        0 <= i < 16 && #[trigger] hidden_table()[i].0 == ch by {
        if ch == t[0].0 {} else if ch == t[1].0 {} else if ch == t[2].0 {} else if ch == t[3].0 {}
        else if ch == t[4].0 {} else if ch == t[5].0 {} else if ch == t[6].0 {} else if ch == t[7].0 {}
        else if ch == t[8].0 {} else if ch == t[9].0 {} else if ch == t[10].0 {} else if ch == t[11].0 {}
        else if ch == t[12].0 {} else if ch == t[13].0 {} else if ch == t[14].0 {} else if ch == t[15].0 {}
    }
}

/// The finding that flags the hidden character at position `k` of `text`,
/// labelled `label` with risk `risk`: it covers exactly that character's
/// bytes.
pub open spec fn hidden_char_finding(text: Seq<char>, k: int, label: Seq<char>, risk: RiskLevel) -> FindingView {
    FindingView {
        rule: "delimiter_smuggle"@,
        start: encode_utf8(text.take(k)).len() as int,
        end: encode_utf8(text.take(k + 1)).len() as int,
        message: "hidden character: "@ + label,
        risk,
    }
}

/// Every hidden character of a text is reported, on exactly its bytes,
/// with its label and risk.
pub proof fn law_every_hidden_char_reported(text: Seq<char>, k: int, label: Seq<char>, risk: RiskLevel)
    requires
        0 <= k < text.len(),
        classify_spec(text[k]) == Some((label, risk)),
    ensures
        hidden_char_findings(text).contains(hidden_char_finding(text, k, label, risk)),
    decreases text.len(),
{
    law_hidden_table();
    let p = text.drop_last();
    let a = hidden_char_findings(p);
    let f = hidden_char_finding(text, k, label, risk);
    if k < text.len() - 1 {
        assert(p[k] == text[k]);
        law_every_hidden_char_reported(p, k, label, risk);
        assert(p.take(k) =~= text.take(k));
        assert(p.take(k + 1) =~= text.take(k + 1));
        assert(hidden_char_finding(p, k, label, risk) == f);
        let m = choose|m: int| 0 <= m < a.len() && a[m] == f;
        assert(hidden_char_findings(text)[m] == f);
    } else {
        assert(text.take(k) =~= p);
        assert(text.take(k + 1) =~= text);
        assert(text.last() == text[k]);
        assert(hidden_char_findings(text)[a.len() as int] == f);
    }
}

/// The delimiter rule flags every character of the hidden-character table
/// wherever it stands in a text, on exactly its bytes, with the table's
/// label and risk.
pub proof fn law_hidden_table_char_reported(text: Seq<char>, k: int, i: int)
    requires
        0 <= k < text.len(),
        0 <= i < 16,
        text[k] == hidden_table()[i].0,
    ensures
        forall|out: Seq<FindingView>|
            #[trigger] DelimiterSmuggle.scan_spec(text, out) ==> out.contains(
                hidden_char_finding(text, k, hidden_table()[i].1, hidden_table()[i].2),
            ),
{
    law_hidden_table();
    assert(classify_spec(hidden_table()[i].0) == Some((hidden_table()[i].1, hidden_table()[i].2)));
    law_every_hidden_char_reported(text, k, hidden_table()[i].1, hidden_table()[i].2);
}

/// A shield with the built-in rules that blocks from `High` refuses every
/// text holding a `High` hidden character (a bidi embedding, override or
/// isolate).
pub proof fn law_builtin_refuses_bidi_control(
    shield: &Shield,
    text: Seq<char>,
    r: Result<String, ShieldBlocked>,
    k: int,
    i: int,
)
    requires
        shield.has_builtin_rules(),
        shield.block_level() == RiskLevel::High,
        shield.sanitizes_to(text, r),
        0 <= k < text.len(),
        0 <= i < 16,
        text[k] == hidden_table()[i].0,
        hidden_table()[i].2 == RiskLevel::High,
    ensures
        r is Err,
{
    law_hidden_table_char_reported(text, k, i);
    let f = hidden_char_finding(text, k, hidden_table()[i].1, hidden_table()[i].2);
    assert forall|out: Seq<FindingView>| #[trigger] shield.rule_scans(4, text, out) implies out.contains(f) by {
        assert(DelimiterSmuggle.scan_spec(text, out));
    }
    law_refuses_when_a_rule_must_report(shield, text, r, 4, f);
}

/// Inside a decoded payload run every built-in rule but the payload rule,
/// in their usual order: the four pattern rules with their tables, then the
/// hidden characters.
pub proof fn law_inner_rules(d: Seq<char>)
    ensures
        inner_findings(d) == table_findings("role_override"@, role_override_table(), d) + table_findings(
            "tool_call_inject"@,
            tool_call_inject_table(),
            d,
        ) + table_findings("secret_extract"@, secret_extract_table(), d) + table_findings(
            "format_break"@,
            format_break_table(),
            d,
        ) + hidden_char_findings(d),
{
    law_role_override_table();
    law_tool_call_inject_table();
    law_secret_extract_table();
    law_format_break_table();
}

/// `risk` is the highest risk among `inner`: it reaches each of their risks
/// and is the risk of one of them.
pub open spec fn is_highest_risk(risk: RiskLevel, inner: Seq<FindingView>) -> bool {
    &&& forall|j: int| 0 <= j < inner.len() ==> risk.reaches(#[trigger] inner[j].risk)
    &&& exists|j: int| 0 <= j < inner.len() && #[trigger] inner[j].risk == risk
}

/// Each finding for encoded runs comes from one of the runs.
proof fn lemma_payload_findings_from_runs(text: Seq<char>, spans: Seq<(usize, usize)>, enc: Encoding, i: int)
    requires
        0 <= i < payload_findings(text, spans, enc).len(),
    ensures
        exists|k: int|
            0 <= k < spans.len() && payload_finding(text, #[trigger] spans[k], enc).len() > 0
                && payload_findings(text, spans, enc)[i] == payload_finding(text, spans[k], enc)[0],
    decreases spans.len(),
{
    let a = payload_findings(text, spans.drop_last(), enc);
    let b = payload_finding(text, spans.last(), enc);
    assert(payload_findings(text, spans, enc) == a + b);
    if i < a.len() {
        lemma_payload_findings_from_runs(text, spans.drop_last(), enc, i);
        let k = choose|k: int|
            0 <= k < spans.drop_last().len() && payload_finding(text, #[trigger] spans.drop_last()[k], enc).len() > 0
                && a[i] == payload_finding(text, spans.drop_last()[k], enc)[0];
        assert(spans.drop_last()[k] == spans[k]);
        assert((a + b)[i] == a[i]);
    } else {
        assert(spans.last() == spans[spans.len() - 1]);
        assert((a + b)[i] == b[i - a.len()]);
    }
}

/// A finding of the payload rule covers a run whose decoded text trips the
/// inner rules, and its risk is the highest risk among the inner rules'
/// findings on that decoded text.
pub proof fn law_payload_risk_is_highest_inner(text: Seq<char>, i: int)
    requires
        0 <= i < encoded_findings(text).len(),
    ensures
        exists|enc: Encoding, d: Seq<char>|
            #![trigger decode_payload(enc, encode_utf8(text).subrange(encoded_findings(text)[i].start, encoded_findings(text)[i].end)), inner_findings(d)]
            {
                &&& decode_payload(
                    enc,
                    encode_utf8(text).subrange(encoded_findings(text)[i].start, encoded_findings(text)[i].end),
                ) == Some(d)
                &&& inner_findings(d).len() > 0
                &&& is_highest_risk(encoded_findings(text)[i].risk, inner_findings(d))
                &&& encoded_findings(text)[i].message == (match enc {
                    Encoding::Base64 => "base64-encoded payload contains: "@,
                    Encoding::Hex => "hex-encoded payload contains: "@,
                }) + join_with(messages(inner_findings(d)), "; "@)
            },
{
    let f = encoded_findings(text)[i];
    let a = if regex_compiles(BASE64_RE@) {
        payload_findings(text, regex_match_spans(BASE64_RE@, text), Encoding::Base64)
    } else {
        Seq::empty()
    };
    let b = if regex_compiles(HEX_RE@) {
        payload_findings(text, regex_match_spans(HEX_RE@, text), Encoding::Hex)
    } else {
        Seq::empty()
    };
    assert(encoded_findings(text) == a + b);
    let (enc, spans, idx) = if i < a.len() {
        (Encoding::Base64, regex_match_spans(BASE64_RE@, text), i)
    } else {
        (Encoding::Hex, regex_match_spans(HEX_RE@, text), i - a.len())
    };
    if i < a.len() {
        assert(f == a[i]);
    } else {
        assert(f == b[i - a.len()]);
    }
    assert(f == payload_findings(text, spans, enc)[idx]);
    lemma_payload_findings_from_runs(text, spans, enc, idx);
    let k = choose|k: int|
        0 <= k < spans.len() && payload_finding(text, #[trigger] spans[k], enc).len() > 0
            && payload_findings(text, spans, enc)[idx] == payload_finding(text, spans[k], enc)[0];
    let span = spans[k];
    let m = encode_utf8(text).subrange(span.0 as int, span.1 as int);
    let d = decode_payload(enc, m)->Some_0;
    let inner = inner_findings(d);
    assert(f.start == span.0 && f.end == span.1);
    assert(f.risk == crate::findings::max_risk(inner));
    law_max_risk(inner);
    assert(is_highest_risk(f.risk, inner));
}

/// A shield with the built-in rules refuses every text on which the payload
/// rule reports a finding whose risk reaches the block threshold; by
/// `law_payload_risk_is_highest_inner`, that is every encoded run whose
/// decoded text draws such a finding from an inner rule.
pub proof fn law_builtin_refuses_risky_payload(
    shield: &Shield,
    text: Seq<char>,
    r: Result<String, ShieldBlocked>,
    i: int,
)
    requires
        shield.has_builtin_rules(),
        shield.sanitizes_to(text, r),
        0 <= i < encoded_findings(text).len(),
        encoded_findings(text)[i].risk.reaches(shield.block_level()),
    ensures
        r is Err,
{
    let f = encoded_findings(text)[i];
    assert forall|out: Seq<FindingView>| #[trigger] shield.rule_scans(5, text, out) implies out.contains(f) by {
        assert(out == encoded_findings(text));
        assert(out[i] == f);
    }
    law_refuses_when_a_rule_must_report(shield, text, r, 5, f);
}

} // verus!
