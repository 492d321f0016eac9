//! Rules made of regular expressions: each pattern of a table reports one
//! finding per match.
use vstd::prelude::*;
use crate::findings::{views, Finding, FindingView, RiskLevel};
use crate::rule::all_in;
use crate::text::span_in;

verus! {

/// Whether `regex::Regex::new` accepts `pattern`.
pub uninterp spec fn regex_compiles(pattern: Seq<char>) -> bool;

/// The byte spans, in order, of the matches that `regex::Regex::find_iter`
/// yields for the compiled `pattern` over `haystack`.
pub uninterp spec fn regex_match_spans(pattern: Seq<char>, haystack: Seq<char>) -> Seq<(usize, usize)>;

/// Compiles `pattern` with `regex::Regex::new` and collects the byte spans of
/// the matches that `Regex::find_iter` yields over `haystack`.
///
/// Trusted: the result is `None` exactly when the pattern does not compile,
/// and otherwise the spans named by `regex_match_spans`; as the regex crate
/// documents, each span has `start <= end` and both offsets are UTF-8
/// boundaries of the haystack. What the spans are is not stated. Compiling
/// and searching stand together because the compiled regex is used nowhere
/// else; the library compiles its patterns on each scan.
#[verifier::external_body]
pub(crate) fn find_matches(pattern: &str, haystack: &str) -> (r: Option<Vec<(usize, usize)>>)
    ensures
        r is Some <==> regex_compiles(pattern@),
        r matches Some(v) ==> v@ == regex_match_spans(pattern@, haystack@),
        r matches Some(v) ==> forall|i: int|
            0 <= i < v@.len() ==> span_in(haystack@, (#[trigger] v@[i]).0 as int, v@[i].1 as int),
{
    match regex::Regex::new(pattern) {
        Ok(re) => Some(re.find_iter(haystack).map(|m| (m.start(), m.end())).collect()),
        Err(_) => None,
    }
}

/// One pattern of a rule: the regular expression, the message of its
/// findings and their risk.
pub struct PatternSpec {
    pub source: &'static str,
    pub message: &'static str,
    pub risk: RiskLevel,
}

/// The mathematical content of a [`PatternSpec`].
pub struct PatternView {
    pub source: Seq<char>,
    pub message: Seq<char>,
    pub risk: RiskLevel,
}

impl View for PatternSpec {
    type V = PatternView;

    open spec fn view(&self) -> PatternView {
        PatternView { source: self.source@, message: self.message@, risk: self.risk }
    }
}

/// The views of a sequence of patterns.
pub open spec fn pattern_views(s: Seq<PatternSpec>) -> Seq<PatternView> {
    s.map_values(|p: PatternSpec| p@)
}

/// The finding that a match `span` of a pattern yields.
pub open spec fn match_finding(rule: Seq<char>, message: Seq<char>, risk: RiskLevel, span: (usize, usize)) -> FindingView {
    FindingView { rule, start: span.0 as int, end: span.1 as int, message, risk }
}

/// The findings that the matches `spans` of a pattern yield, in order.
pub open spec fn match_findings(rule: Seq<char>, message: Seq<char>, risk: RiskLevel, spans: Seq<(usize, usize)>) -> Seq<FindingView> {
    spans.map_values(|s: (usize, usize)| match_finding(rule, message, risk, s))
}

/// The findings of one pattern of rule `rule` in `text`: one per match, none
/// when the pattern does not compile.
pub open spec fn pattern_findings(rule: Seq<char>, p: PatternView, text: Seq<char>) -> Seq<FindingView> {
    if regex_compiles(p.source) {
        match_findings(rule, p.message, p.risk, regex_match_spans(p.source, text))
    } else {
        Seq::empty()
    }
}

/// The findings of a table of patterns, pattern by pattern in table order.
pub open spec fn table_findings(rule: Seq<char>, table: Seq<PatternView>, text: Seq<char>) -> Seq<FindingView>
    decreases table.len(),
{
    if table.len() == 0 {
        Seq::empty()
    } else {
        table_findings(rule, table.drop_last(), text) + pattern_findings(rule, table.last(), text)
    }
}

/// Appends to `out` one finding of rule `rule` for each match span in `spans`.
pub fn push_match_findings(
    out: &mut Vec<Finding>,
    rule: &str,
    message: &str,
    risk: RiskLevel,
    spans: &Vec<(usize, usize)>,
)
    ensures
        views(final(out)@) == views(old(out)@) + match_findings(rule@, message@, risk, spans@),
{
    let ghost start = views(out@);
    let mut i: usize = 0;
    while i < spans.len()
        invariant
            i <= spans.len(),
            views(out@) == start + match_findings(rule@, message@, risk, spans@.take(i as int)),
        decreases spans.len() - i,
    {
        let (s, e) = spans[i];
        let f = Finding::new(rule, s, e, message, risk);
        let ghost before = out@;
        out.push(f);
        proof {
            assert(views(out@) =~= views(before).push(f@));
            assert(spans@.take(i + 1) =~= spans@.take(i as int).push(spans@[i as int]));
            assert(match_findings(rule@, message@, risk, spans@.take(i + 1)) =~= match_findings(
                rule@,
                message@,
                risk,
                spans@.take(i as int),
            ).push(match_finding(rule@, message@, risk, spans@[i as int])));
        }
        i += 1;
    }
    assert(spans@.take(i as int) =~= spans@);
}

/// Appends to `out` the findings of pattern `p` of rule `rule` in `text`.
pub fn scan_pattern(out: &mut Vec<Finding>, rule: &str, p: &PatternSpec, text: &str)
    ensures
        views(final(out)@) == views(old(out)@) + pattern_findings(rule@, p@, text@),
        all_in(text@, views(old(out)@)) ==> all_in(text@, views(final(out)@)),
{
    match find_matches(p.source, text) {
        Some(spans) => {
            push_match_findings(out, rule, p.message, p.risk, &spans);
            proof {
                let n = views(old(out)@).len();
                if all_in(text@, views(old(out)@)) {
                    assert forall|i: int| 0 <= i < views(out@).len() implies span_in(
                        text@,
                        #[trigger] views(out@)[i].start,
                        views(out@)[i].end,
                    ) by {
                        if i >= n {
                            let sp = spans@[i - n];
                            assert(views(out@)[i] == match_finding(rule@, p.message@, p.risk, sp));
                        } else {
                            assert(views(out@)[i] == views(old(out)@)[i]);
                        }
                    }
                }
            }
        },
        None => {
            assert(views(out@) =~= views(old(out)@) + Seq::<FindingView>::empty());
        },
    }
}

/// The findings of the patterns of `table`, pattern by pattern, for rule `rule`.
pub fn scan_table(rule: &str, table: &Vec<PatternSpec>, text: &str) -> (out: Vec<Finding>)
    ensures
        views(out@) == table_findings(rule@, pattern_views(table@), text@),
        all_in(text@, views(out@)),
{
    let mut out: Vec<Finding> = Vec::new();
    let mut i: usize = 0;
    while i < table.len()
        invariant
            i <= table.len(),
            views(out@) == table_findings(rule@, pattern_views(table@.take(i as int)), text@),
            all_in(text@, views(out@)),
        decreases table.len() - i,
    {
        scan_pattern(&mut out, rule, &table[i], text);
        proof {
            let t = pattern_views(table@.take(i + 1));
            assert(t.drop_last() =~= pattern_views(table@.take(i as int)));
            assert(t.last() == table@[i as int]@);
        }
        i += 1;
    }
    assert(table@.take(i as int) =~= table@);
    out
}

} // verus!
