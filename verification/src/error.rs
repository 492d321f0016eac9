//! The error returned when an input is refused.
use vstd::prelude::*;
use crate::findings::{join_messages, join_with, messages, views, FindingView, ScanReport};

verus! {

/// The text of a refusal with the findings `fs`: a fixed prefix, then the
/// messages of the findings separated by `"; "`, or a generic reason when
/// there is none.
pub open spec fn blocked_message(fs: Seq<FindingView>) -> Seq<char> {
    if fs.len() == 0 {
        "prompt-shield blocked input: high-risk input"@
    } else {
        "prompt-shield blocked input: "@ + join_with(messages(fs), "; "@)
    }
}

/// An input was refused; the report says why.
#[derive(Debug, Clone)]
pub struct ShieldBlocked {
    pub report: ScanReport,
}

impl ShieldBlocked {
    pub fn new(report: ScanReport) -> (b: Self)
        ensures
            b.report == report,
    {
        ShieldBlocked { report }
    }

    /// A one-line description: `"prompt-shield blocked input: "` followed by
    /// the messages of the findings.
    pub fn to_string(&self) -> (s: String)
        ensures
            s@ == blocked_message(views(self.report.findings@)),
    {
        if self.report.findings.len() == 0 {
            return "prompt-shield blocked input: high-risk input".to_owned();
        }
        let joined = join_messages(self.report.findings.as_slice(), "; ");
        let mut s = "prompt-shield blocked input: ".to_owned();
        s.append(joined.as_str());
        s
    }
}

} // verus!
