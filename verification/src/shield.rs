//! The shield: a set of rules, a redaction threshold and a block threshold.
use vstd::prelude::*;
use vstd::utf8::*;
use crate::error::ShieldBlocked;
use crate::findings::{highest_risk, max_risk, views, Finding, FindingView, RiskLevel, ScanReport};
use crate::redact::{redact, redacted_bytes, redacting_in, redacts};
use crate::rule::{placed, Rule};
use crate::rules::{DelimiterSmuggle, EncodedPayload, FormatBreak, RoleOverride, SecretExtract, ToolCallInject};
use crate::sorting::{sort_findings, sort_witness, stable_sorted};

verus! {

/// The findings of several rules, one rule after the other.
pub open spec fn concat_all(outs: Seq<Seq<FindingView>>) -> Seq<FindingView>
    decreases outs.len(),
{
    if outs.len() == 0 {
        Seq::empty()
    } else {
        concat_all(outs.drop_last()) + outs.last()
    }
}

/// `report` is what scanning `text` gives when the rules together found
/// `found` and redaction happens at `redact_threshold`: the input is kept,
/// the findings are `found` sorted stably by start and then rule name, the
/// risk is the highest among them, and the redacted text hides their spans.
pub open spec fn is_report_of(
    report: ScanReport,
    text: Seq<char>,
    found: Seq<FindingView>,
    redact_threshold: RiskLevel,
) -> bool {
    &&& report.input@ == text
    &&& stable_sorted(views(report.findings@), found)
    &&& report.risk == max_risk(views(report.findings@))
    &&& encode_utf8(report.redacted@) == redacted_bytes(text, views(report.findings@), redact_threshold)
}

/// Sorting keeps the placement of the findings that redact.
proof fn lemma_sorted_redacting_in(text: Seq<char>, out: Seq<FindingView>, inp: Seq<FindingView>, level: RiskLevel)
    requires
        stable_sorted(out, inp),
        redacting_in(text, inp, level),
    ensures
        redacting_in(text, out, level),
{
    let p = choose|p: Seq<int>| sort_witness(out, inp, p);
    assert forall|i: int| 0 <= i < out.len() && redacts(#[trigger] out[i], level) implies crate::text::span_in(
        text,
        out[i].start,
        out[i].end,
    ) by {
        assert(out[i] == inp[p[i]]);
    }
}

/// Assembles the report for `text` from everything the rules found. Only
/// the findings that redact at `redact_threshold` need to lie in `text`.
pub fn build_report(text: &str, found: Vec<Finding>, redact_threshold: RiskLevel) -> (report: ScanReport)
    requires
        redacting_in(text@, views(found@), redact_threshold),
    ensures
        is_report_of(report, text@, views(found@), redact_threshold),
{
    let ghost inp = views(found@);
    let findings = sort_findings(found);
    proof {
        lemma_sorted_redacting_in(text@, views(findings@), inp, redact_threshold);
    }
    let risk = highest_risk(findings.as_slice());
    let redacted = redact(text, findings.as_slice(), redact_threshold);
    ScanReport { input: text.to_owned(), findings, risk, redacted }
}

/// A prompt-injection filter: runs its rules over an input, reports and
/// redacts what they find, and refuses inputs that are too risky.
pub struct Shield {
    rules: Vec<Box<dyn Rule>>,
    block_threshold: RiskLevel,
    redact_threshold: RiskLevel,
}

impl Shield {
    /// The name of the rule that runs `i`-th.
    pub closed spec fn rule_name(&self, i: int) -> Seq<char> {
        self.rules@[i].spec_name()
    }

    /// `out` is a result that the rule running `i`-th may give on `text`.
    pub closed spec fn rule_scans(&self, i: int, text: Seq<char>, out: Seq<FindingView>) -> bool {
        self.rules@[i].scan_spec(text, out)
    }

    /// The number of rules.
    pub closed spec fn rule_count(&self) -> nat {
        self.rules@.len()
    }

    /// The level from which inputs are refused.
    pub closed spec fn block_level(&self) -> RiskLevel {
        self.block_threshold
    }

    /// The level from which findings are redacted.
    pub closed spec fn redact_level(&self) -> RiskLevel {
        self.redact_threshold
    }

    /// The rule running `i`-th in `self` has the name and the scans of the
    /// rule running `j`-th in `other`.
    pub open spec fn same_rule(&self, i: int, other: &Shield, j: int) -> bool {
        &&& self.rule_name(i) == other.rule_name(j)
        &&& forall|t: Seq<char>, o: Seq<FindingView>| #[trigger] self.rule_scans(i, t, o) == other.rule_scans(j, t, o)
    }

    /// The rule running `i`-th is `rule`: same name, same scans.
    pub open spec fn runs_at<R: Rule + ?Sized>(&self, i: int, rule: &R) -> bool {
        &&& self.rule_name(i) == rule.spec_name()
        &&& forall|t: Seq<char>, o: Seq<FindingView>| #[trigger] self.rule_scans(i, t, o) == rule.scan_spec(t, o)
    }

    /// `self` starts with the rules of `other`, in the same order.
    pub open spec fn extends(&self, other: &Shield) -> bool {
        &&& other.rule_count() <= self.rule_count()
        &&& forall|i: int| 0 <= i < other.rule_count() ==> #[trigger] self.same_rule(i, other, i)
    }

    /// The built-in rules, in this order: role override, tool-call
    /// injection, secret extraction, format break, delimiter smuggling and
    /// encoded payloads.
    pub open spec fn has_builtin_rules(&self) -> bool {
        &&& self.rule_count() == 6
        &&& self.runs_at(0, &RoleOverride)
        &&& self.runs_at(1, &ToolCallInject)
        &&& self.runs_at(2, &SecretExtract)
        &&& self.runs_at(3, &FormatBreak)
        &&& self.runs_at(4, &DelimiterSmuggle)
        &&& self.runs_at(5, &EncodedPayload)
    }

    /// `outs` holds, rule by rule in order, a result that each rule's scan
    /// may return on `text`.
    pub open spec fn rule_outputs(&self, text: Seq<char>, outs: Seq<Seq<FindingView>>) -> bool {
        &&& outs.len() == self.rule_count()
        &&& forall|i: int| 0 <= i < outs.len() ==> self.rule_scans(i, text, #[trigger] outs[i])
        &&& forall|i: int| 0 <= i < outs.len() ==> placed(text, #[trigger] outs[i])
    }

    /// `report` is a possible result of scanning `text`: each rule scanned
    /// `text` once, in order, and the report is built from all they found.
    pub open spec fn scans_to(&self, text: Seq<char>, report: ScanReport) -> bool {
        exists|outs: Seq<Seq<FindingView>>|
            {
                &&& self.rule_outputs(text, outs)
                &&& is_report_of(report, text, concat_all(outs), self.redact_level())
            }
    }

    /// `r` is a possible result of sanitizing `text`: the redacted text of a
    /// possible report whose risk stays below the block threshold, or the
    /// refusal carrying a possible report whose risk reaches it.
    pub open spec fn sanitizes_to(&self, text: Seq<char>, r: Result<String, ShieldBlocked>) -> bool {
        match r {
            Ok(s) => exists|report: ScanReport|
                {
                    &&& self.scans_to(text, report)
                    &&& !report.risk.reaches(self.block_level())
                    &&& s@ == report.redacted@
                },
            Err(b) => self.scans_to(text, b.report) && b.report.risk.reaches(self.block_level()),
        }
    }

    /// A shield without rules, redacting and blocking from `High`.
    pub fn new() -> (s: Self)
        ensures
            s.rule_count() == 0,
            s.block_level() == RiskLevel::High,
            s.redact_level() == RiskLevel::High,
    {
        Shield { rules: Vec::new(), block_threshold: RiskLevel::High, redact_threshold: RiskLevel::High }
    }

    /// The shield with `rule` added after its current rules.
    pub fn with(self, rule: Box<dyn Rule>) -> (s: Self)
        ensures
            s.rule_count() == self.rule_count() + 1,
            s.extends(&self),
            s.runs_at(self.rule_count() as int, &*rule),
            s.block_level() == self.block_level(),
            s.redact_level() == self.redact_level(),
    {
        let ghost old_rules = self.rules@;
        let ghost added = rule;
        let Shield { rules, block_threshold, redact_threshold } = self;
        let mut rules = rules;
        // Appending a one-element vector (rather than pushing) keeps the
        // proof to facts about whole sequences.
        let mut last = vec![rule];
        assert(last@[0] == added);
        rules.append(&mut last);
        let s = Shield { rules, block_threshold, redact_threshold };
        proof {
            let n = old_rules.len() as int;
            assert(s.rules@[n] == added);
            assert forall|i: int| 0 <= i < self.rule_count() implies #[trigger] s.same_rule(i, &self, i) by {
                assert(s.rules@[i] == old_rules[i]);
            }
        }
        s
    }

    /// The shield with its block threshold set to `level`.
    pub fn block_threshold(self, level: RiskLevel) -> (s: Self)
        ensures
            s.rule_count() == self.rule_count(),
            s.extends(&self),
            s.block_level() == level,
            s.redact_level() == self.redact_level(),
    {
        let mut s = self;
        s.block_threshold = level;
        s
    }

    /// The shield with its redaction threshold set to `level`.
    pub fn redact_threshold(self, level: RiskLevel) -> (s: Self)
        ensures
            s.rule_count() == self.rule_count(),
            s.extends(&self),
            s.block_level() == self.block_level(),
            s.redact_level() == level,
    {
        let mut s = self;
        s.redact_threshold = level;
        s
    }

    /// The names of the rules, in the order in which they run.
    pub fn rule_names(&self) -> (names: Vec<String>)
        ensures
            names@.len() == self.rule_count(),
            forall|i: int| 0 <= i < names@.len() ==> (#[trigger] names@[i])@ == self.rule_name(i),
    {
        let mut names: Vec<String> = Vec::new();
        let mut i: usize = 0;
        while i < self.rules.len()
            invariant
                i <= self.rules@.len(),
                names@.len() == i,
                forall|k: int| 0 <= k < i ==> (#[trigger] names@[k])@ == self.rule_name(k),
            decreases self.rules.len() - i,
        {
            let name = self.rules[i].name();
            let ghost prev = names@;
            names.push(name.to_owned());
            proof {
                assert forall|k: int| 0 <= k < i + 1 implies (#[trigger] names@[k])@ == self.rule_name(k) by {
                    if k < i {
                        assert(names@[k] == prev[k]);
                    }
                }
            }
            i += 1;
        }
        names
    }

    /// Runs every rule over `text`, then sorts the findings by start and rule
    /// name, takes the highest risk and redacts from the redaction threshold.
    pub fn scan(&self, text: &str) -> (report: ScanReport)
        ensures
            self.scans_to(text@, report),
    {
        let mut found: Vec<Finding> = Vec::new();
        let ghost mut outs: Seq<Seq<FindingView>> = Seq::empty();
        let mut i: usize = 0;
        while i < self.rules.len()
            invariant
                i <= self.rules@.len(),
                outs.len() == i,
                forall|k: int| 0 <= k < outs.len() ==> self.rule_scans(k, text@, #[trigger] outs[k]),
                forall|k: int| 0 <= k < outs.len() ==> placed(text@, #[trigger] outs[k]),
                views(found@) == concat_all(outs),
                placed(text@, views(found@)),
            decreases self.rules.len() - i,
        {
            let mut out = self.rules[i].scan(text);
            let ghost o = views(out@);
            let ghost before = views(found@);
            found.append(&mut out);
            proof {
                let prev_outs = outs;
                outs = outs.push(o);
                assert(outs.drop_last() =~= prev_outs);
                assert forall|k: int| 0 <= k < outs.len() implies self.rule_scans(k, text@, #[trigger] outs[k])
                    && placed(text@, outs[k]) by {
                    if k < prev_outs.len() {
                        assert(outs[k] == prev_outs[k]);
                    } else {
                        assert(outs[k] == o);
                    }
                }
                assert(views(found@) =~= before + o);
                assert forall|k: int| 0 <= k < views(found@).len() && (#[trigger] views(found@)[k]).start < views(found@)[k].end implies crate::text::span_in(
                    text@,
                    views(found@)[k].start,
                    views(found@)[k].end,
                ) by {
                    if k < before.len() {
                        assert(views(found@)[k] == before[k]);
                    } else {
                        assert(views(found@)[k] == o[k - before.len()]);
                    }
                }
            }
            i += 1;
        }
        let report = build_report(text, found, self.redact_threshold);
        assert(self.rule_outputs(text@, outs));
        report
    }

    /// The redacted text when the scan's risk stays below the block
    /// threshold, otherwise the refusal with the report.
    pub fn sanitize(&self, text: &str) -> (r: Result<String, ShieldBlocked>)
        ensures
            self.sanitizes_to(text@, r),
    {
        let report = self.scan(text);
        if report.risk.rank() >= self.block_threshold.rank() {
            return Err(ShieldBlocked::new(report));
        }
        Ok(report.redacted)
    }
}

/// A shield that starts with the rules of one that starts with the rules of
/// a third starts with the rules of the third.
proof fn lemma_extends_trans(a: &Shield, b: &Shield, c: &Shield)
    requires
        a.extends(b),
        b.extends(c),
    ensures
        a.extends(c),
{
    assert forall|i: int| 0 <= i < c.rule_count() implies #[trigger] a.same_rule(i, c, i) by {
        assert(a.same_rule(i, b, i));
        assert(b.same_rule(i, c, i));
        assert forall|t: Seq<char>, o: Seq<FindingView>| #[trigger] a.rule_scans(i, t, o) == c.rule_scans(i, t, o) by {
            assert(a.rule_scans(i, t, o) == b.rule_scans(i, t, o));
            assert(b.rule_scans(i, t, o) == c.rule_scans(i, t, o));
        }
    }
}

impl Default for Shield {
    /// A shield with every built-in rule, redacting and blocking from `High`.
    fn default() -> (s: Self)
        ensures
            s.has_builtin_rules(),
            s.block_level() == RiskLevel::High,
            s.redact_level() == RiskLevel::High,
    {
        let s0 = Self::new();
        let s1 = s0.with(Box::new(RoleOverride));
        let s2 = s1.with(Box::new(ToolCallInject));
        let s3 = s2.with(Box::new(SecretExtract));
        let s4 = s3.with(Box::new(FormatBreak));
        let s5 = s4.with(Box::new(DelimiterSmuggle));
        let s6 = s5.with(Box::new(EncodedPayload));
        proof {
            lemma_extends_trans(&s6, &s5, &s4);
            lemma_extends_trans(&s6, &s4, &s3);
            lemma_extends_trans(&s6, &s3, &s2);
            lemma_extends_trans(&s6, &s2, &s1);
            assert(s6.same_rule(0, &s1, 0));
            assert(s6.same_rule(1, &s2, 1));
            assert(s6.same_rule(2, &s3, 2));
            assert(s6.same_rule(3, &s4, 3));
            assert(s6.same_rule(4, &s5, 4));
        }
        s6
    }
}

} // verus!
