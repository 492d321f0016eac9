//! Risk levels, single findings and the report that a scan produces.
use vstd::prelude::*;

verus! {

/// How dangerous a finding (or a whole input) is, from harmless to blocking.
/// The levels are ordered `Safe < Low < Medium < High < Block`.
#[derive(Debug, Clone, Copy, PartialEq, Eq, Structural, Hash, Ord)]
pub enum RiskLevel {
    Safe,
    Low,
    Medium,
    High,
    Block,
}

impl RiskLevel {
    /// The position of the level in the order, from 0 (`Safe`) to 4 (`Block`).
    #[verifier::allow_in_spec]
    pub fn rank(self) -> u8
        returns
            (match self {
                RiskLevel::Safe => 0u8,
                RiskLevel::Low => 1u8,
                RiskLevel::Medium => 2u8,
                RiskLevel::High => 3u8,
                RiskLevel::Block => 4u8,
            }),
    {
        match self {
            RiskLevel::Safe => 0,
            RiskLevel::Low => 1,
            RiskLevel::Medium => 2,
            RiskLevel::High => 3,
            RiskLevel::Block => 4,
        }
    }

    /// This level is at least as severe as `level`.
    pub open spec fn reaches(self, level: RiskLevel) -> bool {
        self.rank() >= level.rank()
    }

    /// The upper-case name of the level.
    pub open spec fn label(self) -> Seq<char> {
        match self {
            RiskLevel::Safe => "SAFE"@,
            RiskLevel::Low => "LOW"@,
            RiskLevel::Medium => "MEDIUM"@,
            RiskLevel::High => "HIGH"@,
            RiskLevel::Block => "BLOCK"@,
        }
    }

    /// The upper-case name of the level, such as `"HIGH"`.
    pub fn to_string(&self) -> (s: String)
        ensures
            s@ == self.label(),
    {
        let name: &str = match self {
            RiskLevel::Safe => "SAFE",
            RiskLevel::Low => "LOW",
            RiskLevel::Medium => "MEDIUM",
            RiskLevel::High => "HIGH",
            RiskLevel::Block => "BLOCK",
        };
        name.to_owned()
    }
}

/// The more severe of two levels.
pub open spec fn worse(a: RiskLevel, b: RiskLevel) -> RiskLevel {
    if b.rank() >= a.rank() {
        b
    } else {
        a
    }
}

/// The mathematical content of a [`Finding`].
pub struct FindingView {
    pub rule: Seq<char>,
    pub start: int,
    pub end: int,
    pub message: Seq<char>,
    pub risk: RiskLevel,
}

/// One match of one rule: the rule's name, the byte range of the input that
/// matched, a human-readable message and the risk of the match.
#[derive(Debug, Clone, PartialEq, Eq)]
pub struct Finding {
    pub rule: String,
    pub start: usize,
    pub end: usize,
    pub message: String,
    pub risk: RiskLevel,
}

impl View for Finding {
    type V = FindingView;

    open spec fn view(&self) -> FindingView {
        FindingView {
            rule: self.rule@,
            start: self.start as int,
            end: self.end as int,
            message: self.message@,
            risk: self.risk,
        }
    }
}

/// The views of a sequence of findings.
pub open spec fn views(s: Seq<Finding>) -> Seq<FindingView> {
    s.map_values(|f: Finding| f@)
}

/// The most severe risk among `s`, or `Safe` when `s` is empty.
pub open spec fn max_risk(s: Seq<FindingView>) -> RiskLevel
    decreases s.len(),
{
    if s.len() == 0 {
        RiskLevel::Safe
    } else {
        worse(max_risk(s.drop_last()), s.last().risk)
    }
}

impl Finding {
    /// Builds a finding from its parts.
    pub fn new(rule: &str, start: usize, end: usize, message: &str, risk: RiskLevel) -> (f: Self)
        ensures
            f@ == (FindingView { rule: rule@, start: start as int, end: end as int, message: message@, risk }),
    {
        Finding { rule: rule.to_owned(), start, end, message: message.to_owned(), risk }
    }

    /// The byte range `(start, end)` of the finding.
    pub fn span(&self) -> (r: (usize, usize))
        ensures
            r == (self.start, self.end),
    {
        (self.start, self.end)
    }
}

/// The outcome of scanning one input.
#[derive(Debug, Clone, PartialEq, Eq)]
pub struct ScanReport {
    pub input: String,
    pub findings: Vec<Finding>,
    pub risk: RiskLevel,
    pub redacted: String,
}

impl ScanReport {
    /// The overall risk is `Safe`.
    pub fn is_safe(&self) -> (r: bool)
        ensures
            r == (self.risk == RiskLevel::Safe),
    {
        self.risk == RiskLevel::Safe
    }

    /// The overall risk is at least `High`.
    pub fn is_blocked(&self) -> (r: bool)
        ensures
            r == self.risk.reaches(RiskLevel::High),
    {
        self.risk.rank() >= RiskLevel::High.rank()
    }

    /// Same as [`ScanReport::is_blocked`].
    pub fn blocked(&self) -> (r: bool)
        ensures
            r == self.risk.reaches(RiskLevel::High),
    {
        self.is_blocked()
    }
}

/// `parts` joined with `sep` between neighbours.
pub open spec fn join_with(parts: Seq<Seq<char>>, sep: Seq<char>) -> Seq<char>
    decreases parts.len(),
{
    if parts.len() == 0 {
        Seq::empty()
    } else if parts.len() == 1 {
        parts[0]
    } else {
        join_with(parts.drop_last(), sep) + sep + parts.last()
    }
}

/// The messages of a sequence of findings, in order.
pub open spec fn messages(s: Seq<FindingView>) -> Seq<Seq<char>> {
    s.map_values(|f: FindingView| f.message)
}

/// The messages of `findings` joined with `sep`.
pub fn join_messages(findings: &[Finding], sep: &str) -> (out: String)
    ensures
        out@ == join_with(messages(views(findings@)), sep@),
{
    let ghost parts = messages(views(findings@));
    let mut out = String::new();
    let mut i: usize = 0;
    while i < findings.len()
        invariant
            i <= findings.len(),
            parts == messages(views(findings@)),
            out@ == join_with(parts.take(i as int), sep@),
        decreases findings.len() - i,
    {
        assert(parts[i as int] == findings@[i as int].message@);
        if i > 0 {
            out.append(sep);
        }
        out.append(findings[i].message.as_str());
        proof {
            let t = parts.take(i + 1);
            assert(t.drop_last() =~= parts.take(i as int));
            assert(t.last() == parts[i as int]);
            if i == 0 {
                assert(parts.take(0) =~= Seq::<Seq<char>>::empty());
            }
        }
        i += 1;
    }
    assert(parts.take(i as int) =~= parts);
    out
}

/// The most severe risk of `findings`, or `Safe` when there is none.
pub fn highest_risk(findings: &[Finding]) -> (r: RiskLevel)
    ensures
        r == max_risk(views(findings@)),
{
    let ghost fs = views(findings@);
    let mut r = RiskLevel::Safe;
    let mut i: usize = 0;
    while i < findings.len()
        invariant
            i <= findings.len(),
            fs == views(findings@),
            r == max_risk(fs.take(i as int)),
        decreases findings.len() - i,
    {
        let k = findings[i].risk;
        if k.rank() >= r.rank() {
            r = k;
        }
        proof {
            let t = fs.take(i + 1);
            assert(t.drop_last() =~= fs.take(i as int));
            assert(t.last() == findings@[i as int]@);
        }
        i += 1;
    }
    assert(fs.take(i as int) =~= fs);
    r
}

} // verus!
