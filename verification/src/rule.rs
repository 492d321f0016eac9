//! The interface every detection rule implements.
use vstd::prelude::*;
use crate::findings::{views, FindingView, Finding};
use crate::text::span_in;

verus! {

/// Every finding of `s` covers a byte range of `text` that starts and ends on
/// character boundaries.
pub open spec fn all_in(text: Seq<char>, s: Seq<FindingView>) -> bool {
    forall|i: int| 0 <= i < s.len() ==> span_in(text, #[trigger] s[i].start, s[i].end)
}

/// Every finding of `s` that covers at least one byte lies in `text` on
/// character boundaries; empty findings are free.
pub open spec fn placed(text: Seq<char>, s: Seq<FindingView>) -> bool {
    forall|i: int| 0 <= i < s.len() && (#[trigger] s[i]).start < s[i].end ==> span_in(text, s[i].start, s[i].end)
}

/// A detection rule: a name, and a scan that reports findings in a text.
///
/// `spec_name` is the name that `name` returns, and `scan_spec(text, out)`
/// holds of every result `out` that `scan` may return on `text`. A scan
/// promises that each finding covering at least one byte lies in the text
/// on character boundaries, so that a report can cut the text there (a rule
/// does not know from which risk on its findings will be cut).
pub trait Rule: Send + Sync {
    spec fn spec_name(&self) -> Seq<char>;

    spec fn scan_spec(&self, text: Seq<char>, out: Seq<FindingView>) -> bool;

    fn name(&self) -> (n: &str)
        ensures
            n@ == self.spec_name(),
    ;

    fn scan(&self, text: &str) -> (out: Vec<Finding>)
        ensures
            self.scan_spec(text@, views(out@)),
            placed(text@, views(out@)),
    ;
}

} // verus!
