//! Properties of the library as a whole, stated over the contracts of its
//! functions and proved.
use vstd::prelude::*;
use vstd::utf8::*;
use crate::error::{blocked_message, ShieldBlocked};
use crate::findings::{max_risk, views, FindingView, RiskLevel, ScanReport};
use crate::redact::{covered, lemma_nothing_covered, redact_upto, redacted_bytes, redacts, REDACTED_TOKEN};
use crate::rule::placed;
use crate::shield::{concat_all, is_report_of, Shield};
use crate::pattern::{pattern_findings, table_findings, PatternView};
use crate::rules::delimiter_smuggle::{classify_spec, hidden_char_findings};
use crate::rules::{delimiter_smuggle, encoded_payload, format_break, role_override, secret_extract, tool_call_inject};
use crate::rules::encoded_payload::{decode_hex_spec, hex_digit, hex_pairs, mostly_printable};
use crate::sorting::{lemma_stable_sorted_by_start, lemma_stable_sorted_permutes, lemma_stable_sorted_unique};

verus! {

broadcast use vstd::utf8::group_utf8_lib;

/// Two risk levels of the same rank are the same level, so ordering by rank
/// is a total order on levels.
pub proof fn law_rank_identifies_level(a: RiskLevel, b: RiskLevel)
    ensures
        a.rank() == b.rank() <==> a == b,
        a.rank() <= 4,
{
}

/// The highest risk is at least as severe as every finding's risk, and it is
/// the risk of one of the findings, or `Safe` when there is none.
pub proof fn law_max_risk(s: Seq<FindingView>)
    ensures
        forall|i: int| 0 <= i < s.len() ==> max_risk(s).reaches(#[trigger] s[i].risk),
        s.len() == 0 ==> max_risk(s) == RiskLevel::Safe,
        s.len() > 0 ==> exists|i: int| 0 <= i < s.len() && #[trigger] s[i].risk == max_risk(s),
    decreases s.len(),
{
    if s.len() > 0 {
        let t = s.drop_last();
        law_max_risk(t);
        assert forall|i: int| 0 <= i < s.len() implies max_risk(s).reaches(#[trigger] s[i].risk) by {
            if i < t.len() {
                assert(s[i] == t[i]);
            }
        }
        if max_risk(s) == s.last().risk {
            assert(s[s.len() - 1].risk == max_risk(s));
        } else {
            let i = choose|i: int| 0 <= i < t.len() && #[trigger] t[i].risk == max_risk(t);
            assert(s[i] == t[i]);
        }
    }
}

/// A report lists its findings in order of span start.
pub proof fn law_report_sorted_by_start(shield: &Shield, text: Seq<char>, report: ScanReport)
    requires
        shield.scans_to(text, report),
    ensures
        forall|i: int, j: int|
            0 <= i < j < report.findings@.len() ==> (#[trigger] report.findings@[i]).start
                <= (#[trigger] report.findings@[j]).start,
{
    let outs = choose|outs: Seq<Seq<FindingView>>|
        {
            &&& shield.rule_outputs(text, outs)
            &&& is_report_of(report, text, concat_all(outs), shield.redact_level())
        };
    let v = views(report.findings@);
    lemma_stable_sorted_by_start(v, concat_all(outs));
    assert forall|i: int, j: int| 0 <= i < j < report.findings@.len() implies (#[trigger] report.findings@[i]).start
        <= (#[trigger] report.findings@[j]).start by {
        assert(v[i].start <= v[j].start);
    }
}

/// A report holds exactly the findings of its rules, each once: sorting
/// neither drops nor duplicates any.
pub proof fn law_report_keeps_every_finding(text: Seq<char>, report: ScanReport, found: Seq<FindingView>, level: RiskLevel)
    requires
        is_report_of(report, text, found, level),
    ensures
        views(report.findings@).to_multiset() == found.to_multiset(),
{
    lemma_stable_sorted_permutes(views(report.findings@), found);
}

/// What a shield reports is exactly what its rules found on the text, each
/// finding once: the rules' results, taken together, are the report's
/// findings in another order.
pub proof fn law_report_is_rules_findings(shield: &Shield, text: Seq<char>, report: ScanReport)
    requires
        shield.scans_to(text, report),
    ensures
        exists|outs: Seq<Seq<FindingView>>|
            {
                &&& shield.rule_outputs(text, outs)
                &&& #[trigger] views(report.findings@).to_multiset() == concat_all(outs).to_multiset()
            },
{
    let outs = choose|outs: Seq<Seq<FindingView>>|
        {
            &&& shield.rule_outputs(text, outs)
            &&& is_report_of(report, text, concat_all(outs), shield.redact_level())
        };
    lemma_stable_sorted_permutes(views(report.findings@), concat_all(outs));
}

/// A shield with a single rule reports what that rule found, and nothing
/// else.
pub proof fn law_single_rule_report(shield: &Shield, text: Seq<char>, report: ScanReport)
    requires
        shield.rule_count() == 1,
        shield.scans_to(text, report),
    ensures
        exists|out: Seq<FindingView>|
            {
                &&& shield.rule_scans(0, text, out)
                &&& #[trigger] views(report.findings@).to_multiset() == out.to_multiset()
            },
{
    let outs = choose|outs: Seq<Seq<FindingView>>|
        {
            &&& shield.rule_outputs(text, outs)
            &&& is_report_of(report, text, concat_all(outs), shield.redact_level())
        };
    lemma_stable_sorted_permutes(views(report.findings@), concat_all(outs));
    assert(outs.drop_last() =~= Seq::<Seq<FindingView>>::empty());
    assert(concat_all(outs.drop_last()) =~= Seq::<FindingView>::empty());
    assert(concat_all(outs) =~= outs[0]);
    assert(shield.rule_scans(0, text, outs[0]));
}

/// Each rule of `shield` has a single possible result on `text`.
pub open spec fn rules_deterministic(shield: &Shield, text: Seq<char>) -> bool {
    forall|i: int, o1: Seq<FindingView>, o2: Seq<FindingView>|
        0 <= i < shield.rule_count() && #[trigger] shield.rule_scans(i, text, o1) && #[trigger] shield.rule_scans(
            i,
            text,
            o2,
        ) ==> o1 == o2
}

/// When each rule has a single result on a text, so has the shield: two
/// scans of the text give the same findings in the same order, the same
/// risk and the same redacted text.
pub proof fn law_scan_determined(shield: &Shield, text: Seq<char>, r1: ScanReport, r2: ScanReport)
    requires
        rules_deterministic(shield, text),
        shield.scans_to(text, r1),
        shield.scans_to(text, r2),
    ensures
        r1.input@ == r2.input@,
        views(r1.findings@) == views(r2.findings@),
        r1.risk == r2.risk,
        r1.redacted@ == r2.redacted@,
{
    let o1 = choose|outs: Seq<Seq<FindingView>>|
        {
            &&& shield.rule_outputs(text, outs)
            &&& is_report_of(r1, text, concat_all(outs), shield.redact_level())
        };
    let o2 = choose|outs: Seq<Seq<FindingView>>|
        {
            &&& shield.rule_outputs(text, outs)
            &&& is_report_of(r2, text, concat_all(outs), shield.redact_level())
        };
    assert forall|i: int| 0 <= i < o1.len() implies o1[i] == o2[i] by {
        assert(shield.rule_scans(i, text, o1[i]));
        assert(shield.rule_scans(i, text, o2[i]));
    }
    assert(o1 =~= o2);
    lemma_stable_sorted_unique(views(r1.findings@), views(r2.findings@), concat_all(o1));
    assert(decode_utf8(encode_utf8(r1.redacted@)) == r1.redacted@);
    assert(decode_utf8(encode_utf8(r2.redacted@)) == r2.redacted@);
}

/// The built-in rules each have a single result on every text.
pub proof fn law_builtin_rules_deterministic(shield: &Shield, text: Seq<char>)
    requires
        shield.has_builtin_rules(),
    ensures
        rules_deterministic(shield, text),
{
}

/// A shield with the built-in rules names them, in order, `role_override`,
/// `tool_call_inject`, `secret_extract`, `format_break`, `delimiter_smuggle`
/// and `encoded_payload`.
pub proof fn law_builtin_rule_names(shield: &Shield)
    requires
        shield.has_builtin_rules(),
    ensures
        shield.rule_count() == 6,
        shield.rule_name(0) == role_override::NAME@,
        shield.rule_name(1) == tool_call_inject::NAME@,
        shield.rule_name(2) == secret_extract::NAME@,
        shield.rule_name(3) == format_break::NAME@,
        shield.rule_name(4) == delimiter_smuggle::NAME@,
        shield.rule_name(5) == encoded_payload::NAME@,
{
}

/// Sanitizing agrees with scanning when the rules have a single result: the
/// input is refused exactly when the scan's risk reaches the block
/// threshold, a refusal carries the scan's report, and otherwise the result
/// is the scan's redacted text.
pub proof fn law_sanitize_agrees_with_scan(
    shield: &Shield,
    text: Seq<char>,
    r: Result<String, ShieldBlocked>,
    report: ScanReport,
)
    requires
        rules_deterministic(shield, text),
        shield.sanitizes_to(text, r),
        shield.scans_to(text, report),
    ensures
        r is Err <==> report.risk.reaches(shield.block_level()),
        r matches Err(b) ==> views(b.report.findings@) == views(report.findings@) && b.report.risk == report.risk
            && b.report.redacted@ == report.redacted@ && b.report.input@ == report.input@,
        r matches Ok(s) ==> s@ == report.redacted@,
{
    match r {
        Ok(s) => {
            let other = choose|other: ScanReport|
                {
                    &&& shield.scans_to(text, other)
                    &&& !other.risk.reaches(shield.block_level())
                    &&& s@ == other.redacted@
                };
            law_scan_determined(shield, text, other, report);
        },
        Err(b) => {
            law_scan_determined(shield, text, b.report, report);
        },
    }
}

/// `s1` runs the rules of `s0` and nothing else.
pub open spec fn same_rules(s1: &Shield, s0: &Shield) -> bool {
    s1.rule_count() == s0.rule_count() && s1.extends(s0)
}

/// On the rules that `s1` shares with `s0`, rule outputs for `s1` are rule
/// outputs for `s0`.
proof fn lemma_shared_outputs(s1: &Shield, s0: &Shield, text: Seq<char>, outs: Seq<Seq<FindingView>>)
    requires
        s1.extends(s0),
        s1.rule_outputs(text, outs),
    ensures
        s0.rule_outputs(text, outs.take(s0.rule_count() as int)),
{
    let n = s0.rule_count() as int;
    let t = outs.take(n);
    assert forall|i: int| 0 <= i < t.len() implies s0.rule_scans(i, text, #[trigger] t[i]) && placed(text, t[i]) by {
        assert(t[i] == outs[i]);
        assert(s1.same_rule(i, s0, i));
        assert(s1.rule_scans(i, text, outs[i]));
    }
}

/// Shields with the same rules and the same redaction threshold give the
/// same possible reports.
proof fn lemma_same_rules_same_scans(s1: &Shield, s0: &Shield, text: Seq<char>, report: ScanReport)
    requires
        same_rules(s1, s0),
        s1.redact_level() == s0.redact_level(),
    ensures
        s1.scans_to(text, report) == s0.scans_to(text, report),
{
    if s1.scans_to(text, report) {
        let outs = choose|outs: Seq<Seq<FindingView>>|
            {
                &&& s1.rule_outputs(text, outs)
                &&& is_report_of(report, text, concat_all(outs), s1.redact_level())
            };
        lemma_shared_outputs(s1, s0, text, outs);
        assert(outs.take(s0.rule_count() as int) =~= outs);
    }
    if s0.scans_to(text, report) {
        let outs = choose|outs: Seq<Seq<FindingView>>|
            {
                &&& s0.rule_outputs(text, outs)
                &&& is_report_of(report, text, concat_all(outs), s0.redact_level())
            };
        assert forall|i: int| 0 <= i < outs.len() implies s1.rule_scans(i, text, #[trigger] outs[i]) by {
            assert(s1.same_rule(i, s0, i));
        }
        assert(s1.rule_outputs(text, outs));
    }
}

/// Changing the block threshold changes no scan: the shield with the same
/// rules and redaction threshold gives the same possible reports, and it
/// refuses a text exactly when the scan's risk reaches the new threshold.
pub proof fn law_block_threshold_keeps_scans(
    s0: &Shield,
    s1: &Shield,
    text: Seq<char>,
    report: ScanReport,
    r: Result<String, ShieldBlocked>,
)
    requires
        same_rules(s1, s0),
        s1.redact_level() == s0.redact_level(),
    ensures
        s1.scans_to(text, report) == s0.scans_to(text, report),
        rules_deterministic(s1, text) && s0.scans_to(text, report) && s1.sanitizes_to(text, r) ==> (r is Err
            <==> report.risk.reaches(s1.block_level())),
{
    lemma_same_rules_same_scans(s1, s0, text, report);
    if rules_deterministic(s1, text) && s0.scans_to(text, report) && s1.sanitizes_to(text, r) {
        law_sanitize_agrees_with_scan(s1, text, r, report);
    }
}

/// Changing the redaction threshold keeps the findings and the risk and
/// only redacts differently; whether a text is refused does not change.
pub proof fn law_redact_threshold_keeps_findings(
    s0: &Shield,
    s1: &Shield,
    text: Seq<char>,
    r0: ScanReport,
    r1: ScanReport,
    a0: Result<String, ShieldBlocked>,
    a1: Result<String, ShieldBlocked>,
)
    requires
        same_rules(s1, s0),
        s1.block_level() == s0.block_level(),
        rules_deterministic(s0, text),
        s0.scans_to(text, r0),
        s1.scans_to(text, r1),
    ensures
        views(r1.findings@) == views(r0.findings@),
        r1.risk == r0.risk,
        r1.input@ == r0.input@,
        encode_utf8(r1.redacted@) == redacted_bytes(text, views(r0.findings@), s1.redact_level()),
        s0.sanitizes_to(text, a0) && s1.sanitizes_to(text, a1) ==> (a0 is Err <==> a1 is Err),
{
    let o1 = choose|outs: Seq<Seq<FindingView>>|
        {
            &&& s1.rule_outputs(text, outs)
            &&& is_report_of(r1, text, concat_all(outs), s1.redact_level())
        };
    let o0 = choose|outs: Seq<Seq<FindingView>>|
        {
            &&& s0.rule_outputs(text, outs)
            &&& is_report_of(r0, text, concat_all(outs), s0.redact_level())
        };
    lemma_shared_outputs(s1, s0, text, o1);
    assert(o1.take(s0.rule_count() as int) =~= o1);
    assert forall|i: int| 0 <= i < o0.len() implies o0[i] == o1[i] by {
        assert(s0.rule_scans(i, text, o0[i]));
        assert(s0.rule_scans(i, text, o1[i]));
    }
    assert(o0 =~= o1);
    lemma_stable_sorted_unique(views(r1.findings@), views(r0.findings@), concat_all(o0));
    if s0.sanitizes_to(text, a0) && s1.sanitizes_to(text, a1) {
        assert forall|i: int, p: Seq<FindingView>, q: Seq<FindingView>|
            0 <= i < s1.rule_count() && #[trigger] s1.rule_scans(i, text, p) && #[trigger] s1.rule_scans(i, text, q)
            implies p == q by {
            assert(s1.same_rule(i, s0, i));
            assert(s0.rule_scans(i, text, p));
            assert(s0.rule_scans(i, text, q));
        }
        law_sanitize_agrees_with_scan(s0, text, a0, r0);
        law_sanitize_agrees_with_scan(s1, text, a1, r1);
    }
}

/// Adding a rule keeps the names of the earlier rules and adds the new
/// rule's; when the rules have one result per text, the new shield reports
/// the old shield's findings together with the new rule's, so its risk is at
/// least the old risk.
pub proof fn law_with_adds_rule_findings(s0: &Shield, s1: &Shield, text: Seq<char>, r0: ScanReport, r1: ScanReport)
    requires
        s1.rule_count() == s0.rule_count() + 1,
        s1.extends(s0),
        s1.redact_level() == s0.redact_level(),
        rules_deterministic(s1, text),
        s0.scans_to(text, r0),
        s1.scans_to(text, r1),
    ensures
        forall|i: int| 0 <= i < s0.rule_count() ==> #[trigger] s1.rule_name(i) == s0.rule_name(i),
        exists|out: Seq<FindingView>|
            {
                &&& s1.rule_scans(s0.rule_count() as int, text, out)
                &&& #[trigger] views(r1.findings@).to_multiset() == views(r0.findings@).to_multiset().add(
                    out.to_multiset(),
                )
            },
        r1.risk.reaches(r0.risk),
{
    assert forall|i: int| 0 <= i < s0.rule_count() implies #[trigger] s1.rule_name(i) == s0.rule_name(i) by {
        assert(s1.same_rule(i, s0, i));
    }
    let n = s0.rule_count() as int;
    let o1 = choose|outs: Seq<Seq<FindingView>>|
        {
            &&& s1.rule_outputs(text, outs)
            &&& is_report_of(r1, text, concat_all(outs), s1.redact_level())
        };
    let o0 = choose|outs: Seq<Seq<FindingView>>|
        {
            &&& s0.rule_outputs(text, outs)
            &&& is_report_of(r0, text, concat_all(outs), s0.redact_level())
        };
    lemma_shared_outputs(s1, s0, text, o1);
    let t = o1.take(n);
    assert forall|i: int| 0 <= i < n implies o0[i] == t[i] by {
        assert(s1.same_rule(i, s0, i));
        assert(s1.rule_scans(i, text, o0[i]));
        assert(s1.rule_scans(i, text, t[i]));
    }
    assert(o0 =~= t);
    assert(o1.drop_last() =~= t);
    let out = o1[n];
    assert(o1.last() == out);
    assert(concat_all(o1) == concat_all(o0) + out);
    assert(s1.rule_scans(n, text, out));
    lemma_stable_sorted_permutes(views(r1.findings@), concat_all(o1));
    lemma_stable_sorted_permutes(views(r0.findings@), concat_all(o0));
    vstd::seq_lib::lemma_multiset_commutative(concat_all(o0), out);
    let v0 = views(r0.findings@);
    let v1 = views(r1.findings@);
    assert(v1.to_multiset() == v0.to_multiset().add(out.to_multiset()));
    law_max_risk(v0);
    law_max_risk(v1);
    if v0.len() > 0 {
        broadcast use vstd::seq_lib::group_to_multiset_ensures;
        broadcast use vstd::multiset::group_multiset_axioms;

        let i = choose|i: int| 0 <= i < v0.len() && #[trigger] v0[i].risk == max_risk(v0);
        assert(v0.contains(v0[i]));
        assert(v0.to_multiset().count(v0[i]) > 0);
        assert(v1.to_multiset().count(v0[i]) > 0);
        assert(v1.contains(v0[i]));
        let j = choose|j: int| 0 <= j < v1.len() && v1[j] == v0[i];
        assert(max_risk(v1).reaches(v1[j].risk));
    }
}

/// A report keeps the input, and its risk is the highest risk among its
/// findings (`Safe` when there is none).
pub proof fn law_report_risk(shield: &Shield, text: Seq<char>, report: ScanReport)
    requires
        shield.scans_to(text, report),
    ensures
        report.input@ == text,
        forall|i: int| 0 <= i < report.findings@.len() ==> report.risk.reaches(#[trigger] report.findings@[i].risk),
        report.findings@.len() == 0 ==> report.risk == RiskLevel::Safe,
        report.findings@.len() > 0 ==> exists|i: int|
            0 <= i < report.findings@.len() && #[trigger] report.findings@[i].risk == report.risk,
{
    let v = views(report.findings@);
    law_max_risk(v);
    assert forall|i: int| 0 <= i < report.findings@.len() implies report.risk.reaches(#[trigger] report.findings@[i].risk) by {
        assert(v[i].risk == report.findings@[i].risk);
    }
    if report.findings@.len() > 0 {
        let i = choose|i: int| 0 <= i < v.len() && #[trigger] v[i].risk == max_risk(v);
        assert(report.findings@[i].risk == report.risk);
    }
}

/// When no finding reaches the redaction threshold, the redacted text is the
/// input itself.
pub proof fn law_nothing_to_redact(text: Seq<char>, fs: Seq<FindingView>, threshold: RiskLevel, redacted: Seq<char>)
    requires
        forall|i: int| 0 <= i < fs.len() ==> !redacts(#[trigger] fs[i], threshold),
        encode_utf8(redacted) == redacted_bytes(text, fs, threshold),
    ensures
        redacted == text,
{
    let bytes = encode_utf8(text);
    let cov = |i: int| covered(fs, threshold, i);
    assert forall|i: int| 0 <= i < bytes.len() implies !#[trigger] cov(i) by {
        if covered(fs, threshold, i) {
            let j = choose|j: int| 0 <= j < fs.len() && redacts(#[trigger] fs[j], threshold) && fs[j].start <= i < fs[j].end;
        }
    }
    lemma_nothing_covered(bytes, cov);
    assert(decode_utf8(encode_utf8(redacted)) == redacted);
    assert(decode_utf8(encode_utf8(text)) == text);
}

/// A shield without rules finds nothing: its report is safe and its
/// redacted text is the input.
pub proof fn law_no_rules_no_findings(shield: &Shield, text: Seq<char>, report: ScanReport)
    requires
        shield.rule_count() == 0,
        shield.scans_to(text, report),
    ensures
        report.findings@.len() == 0,
        report.risk == RiskLevel::Safe,
        report.redacted@ == text,
{
    let outs = choose|outs: Seq<Seq<FindingView>>|
        {
            &&& shield.rule_outputs(text, outs)
            &&& is_report_of(report, text, concat_all(outs), shield.redact_level())
        };
    assert(concat_all(outs) =~= Seq::<FindingView>::empty());
    lemma_stable_sorted_by_start(views(report.findings@), concat_all(outs));
    assert(views(report.findings@) =~= Seq::<FindingView>::empty());
    law_nothing_to_redact(text, views(report.findings@), shield.redact_level(), report.redacted@);
}

/// Redaction only depends on which bytes are covered.
proof fn lemma_same_coverage(bytes: Seq<u8>, c1: spec_fn(int) -> bool, c2: spec_fn(int) -> bool, k: int)
    requires
        forall|i: int| #[trigger] c1(i) == c2(i),
    ensures
        redact_upto(bytes, c1, k) == redact_upto(bytes, c2, k),
{
    assert(c1 =~= c2);
}

/// Two redacting findings that overlap or touch are redacted as one span
/// from the first start to the furthest end, so they give a single token.
pub proof fn law_overlapping_spans_merge(text: Seq<char>, f: FindingView, g: FindingView, threshold: RiskLevel)
    requires
        redacts(f, threshold),
        redacts(g, threshold),
        f.start <= g.start <= f.end,
    ensures
        redacted_bytes(text, seq![f, g], threshold) == redacted_bytes(
            text,
            seq![FindingView { end: if g.end > f.end { g.end } else { f.end }, ..f }],
            threshold,
        ),
{
    let m = FindingView { end: if g.end > f.end { g.end } else { f.end }, ..f };
    let two = seq![f, g];
    let one = seq![m];
    assert forall|i: int| #[trigger] covered(two, threshold, i) == covered(one, threshold, i) by {
        if covered(two, threshold, i) {
            let j = choose|j: int| 0 <= j < two.len() && redacts(#[trigger] two[j], threshold) && two[j].start <= i < two[j].end;
            assert(one[0] == m);
        }
        if covered(one, threshold, i) {
            if i < f.end {
                assert(two[0] == f);
            } else {
                assert(two[1] == g);
            }
        }
    }
    let bytes = encode_utf8(text);
    lemma_same_coverage(bytes, |i: int| covered(two, threshold, i), |i: int| covered(one, threshold, i), bytes.len() as int);
}

/// The message of a refusal always starts with `"prompt-shield blocked input"`.
pub proof fn law_blocked_message_prefix(fs: Seq<FindingView>)
    ensures
        blocked_message(fs).len() >= 27,
        blocked_message(fs).take(27) == "prompt-shield blocked input"@,
{
    reveal_strlit("prompt-shield blocked input");
    reveal_strlit("prompt-shield blocked input: high-risk input");
    reveal_strlit("prompt-shield blocked input: ");
    if fs.len() == 0 {
        assert(blocked_message(fs).take(27) =~= "prompt-shield blocked input"@);
    } else {
        let rest = crate::findings::join_with(crate::findings::messages(fs), "; "@);
        assert(blocked_message(fs) == "prompt-shield blocked input: "@ + rest);
        assert(blocked_message(fs).take(27) =~= "prompt-shield blocked input"@);
    }
}

/// The redaction token is the ten characters `[REDACTED]`.
pub proof fn law_redaction_token()
    ensures
        REDACTED_TOKEN@ =~= seq!['[', 'R', 'E', 'D', 'A', 'C', 'T', 'E', 'D', ']'],
{
    reveal_strlit("[REDACTED]");
}

/// Every finding of a pattern table carries the rule's name and the risk and
/// message of one of the table's patterns.
pub proof fn law_table_findings_name_rule(rule: Seq<char>, table: Seq<PatternView>, text: Seq<char>)
    ensures
        forall|i: int|
            0 <= i < table_findings(rule, table, text).len() ==> {
                let f = #[trigger] table_findings(rule, table, text)[i];
                &&& f.rule == rule
                &&& exists|k: int| 0 <= k < table.len() && #[trigger] table[k].risk == f.risk && table[k].message == f.message
            },
    decreases table.len(),
{
    if table.len() > 0 {
        let t = table.drop_last();
        law_table_findings_name_rule(rule, t, text);
        let a = table_findings(rule, t, text);
        let b = pattern_findings(rule, table.last(), text);
        assert(table_findings(rule, table, text) == a + b);
        assert forall|i: int| 0 <= i < (a + b).len() implies {
            let f = #[trigger] (a + b)[i];
            &&& f.rule == rule
            &&& exists|k: int| 0 <= k < table.len() && #[trigger] table[k].risk == f.risk && table[k].message == f.message
        } by {
            if i < a.len() {
                assert((a + b)[i] == a[i]);
                let k = choose|k: int| 0 <= k < t.len() && #[trigger] t[k].risk == a[i].risk && t[k].message == a[i].message;
                assert(table[k] == t[k]);
            } else {
                assert((a + b)[i] == b[i - a.len()]);
                assert(table[table.len() - 1] == table.last());
            }
        }
    }
}

/// The number of hidden characters in `text`.
pub open spec fn hidden_char_count(text: Seq<char>) -> nat
    decreases text.len(),
{
    if text.len() == 0 {
        0
    } else {
        hidden_char_count(text.drop_last()) + if classify_spec(text.last()) is Some {
            1nat
        } else {
            0nat
        }
    }
}

/// Finding `f` covers exactly the bytes of character `k` of `text`, which is
/// hidden, and carries that character's risk.
pub open spec fn flags_char(text: Seq<char>, k: int, f: FindingView) -> bool {
    &&& 0 <= k < text.len()
    &&& classify_spec(text[k]) matches Some((label, risk)) && f.risk == risk
    &&& f.start == encode_utf8(text.take(k)).len()
    &&& f.end == encode_utf8(text.take(k + 1)).len()
}

/// The position in `text` of the character that the `i`-th finding of the
/// delimiter rule reports.
pub open spec fn hidden_char_position(text: Seq<char>, i: int) -> int
    decreases text.len(),
{
    if text.len() == 0 {
        0
    } else if i < hidden_char_findings(text.drop_last()).len() {
        hidden_char_position(text.drop_last(), i)
    } else {
        text.len() - 1
    }
}

/// The delimiter rule reports each hidden character once, and each finding
/// covers exactly the bytes of one hidden character, with its label's risk.
pub proof fn law_hidden_chars_each_flagged(text: Seq<char>)
    ensures
        hidden_char_findings(text).len() == hidden_char_count(text),
        forall|i: int|
            0 <= i < hidden_char_findings(text).len() ==> flags_char(
                text,
                hidden_char_position(text, i),
                #[trigger] hidden_char_findings(text)[i],
            ),
    decreases text.len(),
{
    if text.len() > 0 {
        let p = text.drop_last();
        law_hidden_chars_each_flagged(p);
        let a = hidden_char_findings(p);
        let n = text.len() - 1;
        assert(text.take(n) =~= p);
        assert(text.take(n + 1) =~= text);
        assert forall|i: int| 0 <= i < hidden_char_findings(text).len() implies flags_char(
            text,
            hidden_char_position(text, i),
            #[trigger] hidden_char_findings(text)[i],
        ) by {
            if i < a.len() {
                assert(hidden_char_findings(text)[i] == a[i]);
                let k = hidden_char_position(p, i);
                assert(flags_char(p, k, a[i]));
                assert(p[k] == text[k]);
                assert(p.take(k) =~= text.take(k));
                assert(p.take(k + 1) =~= text.take(k + 1));
            } else {
                assert(text[n] == text.last());
            }
        }
    }
}

/// The hexadecimal digit of a value below 16, in upper or lower case.
pub open spec fn hex_char(v: u8, upper: bool) -> u8 {
    if v < 10 {
        (0x30 + v) as u8
    } else if upper {
        (0x41 + v - 10) as u8
    } else {
        (0x61 + v - 10) as u8
    }
}

/// `b` spelled as two hexadecimal digits per byte, high digit first, in
/// upper or lower case.
pub open spec fn hex_encode(b: Seq<u8>, upper: bool) -> Seq<u8>
    decreases b.len(),
{
    if b.len() == 0 {
        Seq::empty()
    } else {
        hex_encode(b.drop_last(), upper) + seq![hex_char(b.last() / 16, upper), hex_char(b.last() % 16, upper)]
    }
}

/// Reading hexadecimal digits in pairs undoes spelling bytes in
/// hexadecimal, in either case.
pub proof fn law_hex_pairs_undo_hex_encode(b: Seq<u8>, upper: bool)
    ensures
        hex_encode(b, upper).len() == 2 * b.len(),
        hex_pairs(hex_encode(b, upper)) == Some(b),
    decreases b.len(),
{
    if b.len() > 0 {
        let p = b.drop_last();
        law_hex_pairs_undo_hex_encode(p, upper);
        let e = hex_encode(b, upper);
        let n = e.len() as int;
        let x = b.last();
        let hi = (x / 16) as u8;
        let lo = (x % 16) as u8;
        assert(e.take(n - 2) =~= hex_encode(p, upper));
        assert(e[n - 2] == hex_char(hi, upper));
        assert(e[n - 1] == hex_char(lo, upper));
        assert(hex_digit(hex_char(hi, upper)) == Some(hi));
        assert(hex_digit(hex_char(lo, upper)) == Some(lo));
        assert(hi * 16 + lo == x);
        assert(p.push(x) =~= b);
    }
}

/// A mostly printable text, spelled in upper- or lower-case hexadecimal from
/// its UTF-8 bytes, is what the hexadecimal decoding of the payload rule
/// gives back.
pub proof fn law_hex_round_trip(s: Seq<char>, upper: bool)
    requires
        mostly_printable(s),
    ensures
        decode_hex_spec(hex_encode(encode_utf8(s), upper)) == Some(s),
{
    let b = encode_utf8(s);
    law_hex_pairs_undo_hex_encode(b, upper);
    assert(hex_encode(b, upper).len() % 2 == 0);
    assert(valid_utf8(b));
    assert(decode_utf8(b) == s);
}

} // verus!
