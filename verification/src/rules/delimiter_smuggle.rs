//! Invisible characters that reorder or hide text: bidi controls,
//! zero-width characters and the byte-order mark.
use vstd::prelude::*;
use vstd::utf8::*;
use crate::findings::{views, Finding, FindingView, RiskLevel};
use crate::rule::{all_in, Rule};
use crate::text::{lemma_encode_concat, lemma_prefix_boundary, span_in, utf8_width};

verus! {

pub const NAME: &'static str = "delimiter_smuggle";

pub const MESSAGE_PREFIX: &'static str = "hidden character: ";

/// The label and risk of a hidden character, or `None` for any other character.
pub open spec fn classify_spec(ch: char) -> Option<(Seq<char>, RiskLevel)> {
    if ch == '\u{202A}' {
        Some(("left-to-right embedding (bidi)"@, RiskLevel::High))
    } else if ch == '\u{202B}' {
        Some(("right-to-left embedding (bidi)"@, RiskLevel::High))
    } else if ch == '\u{202C}' {
        Some(("pop directional formatting (bidi)"@, RiskLevel::High))
    } else if ch == '\u{202D}' {
        Some(("left-to-right override (bidi)"@, RiskLevel::High))
    } else if ch == '\u{202E}' {
        Some(("right-to-left override (bidi)"@, RiskLevel::High))
    } else if ch == '\u{2066}' {
        Some(("left-to-right isolate (bidi)"@, RiskLevel::High))
    } else if ch == '\u{2067}' {
        Some(("right-to-left isolate (bidi)"@, RiskLevel::High))
    } else if ch == '\u{2068}' {
        Some(("first-strong isolate (bidi)"@, RiskLevel::High))
    } else if ch == '\u{2069}' {
        Some(("pop directional isolate (bidi)"@, RiskLevel::High))
    } else if ch == '\u{200B}' {
        Some(("zero-width space"@, RiskLevel::Medium))
    } else if ch == '\u{200C}' {
        Some(("zero-width non-joiner"@, RiskLevel::Medium))
    } else if ch == '\u{200D}' {
        Some(("zero-width joiner"@, RiskLevel::Medium))
    } else if ch == '\u{2060}' {
        Some(("word joiner"@, RiskLevel::Medium))
    } else if ch == '\u{FEFF}' {
        Some(("byte-order mark / zero-width no-break space"@, RiskLevel::Medium))
    } else if ch == '\u{200E}' {
        Some(("left-to-right mark"@, RiskLevel::Medium))
    } else if ch == '\u{200F}' {
        Some(("right-to-left mark"@, RiskLevel::Medium))
    } else {
        None
    }
}

fn classify(ch: char) -> (r: Option<(&'static str, RiskLevel)>)
    ensures
        match r {
            Some((label, risk)) => classify_spec(ch) == Some((label@, risk)),
            None => classify_spec(ch) is None,
        },
{
    match ch {
        '\u{202A}' => Some(("left-to-right embedding (bidi)", RiskLevel::High)),
        '\u{202B}' => Some(("right-to-left embedding (bidi)", RiskLevel::High)),
        '\u{202C}' => Some(("pop directional formatting (bidi)", RiskLevel::High)),
        '\u{202D}' => Some(("left-to-right override (bidi)", RiskLevel::High)),
        '\u{202E}' => Some(("right-to-left override (bidi)", RiskLevel::High)),
        '\u{2066}' => Some(("left-to-right isolate (bidi)", RiskLevel::High)),
        '\u{2067}' => Some(("right-to-left isolate (bidi)", RiskLevel::High)),
        '\u{2068}' => Some(("first-strong isolate (bidi)", RiskLevel::High)),
        '\u{2069}' => Some(("pop directional isolate (bidi)", RiskLevel::High)),
        '\u{200B}' => Some(("zero-width space", RiskLevel::Medium)),
        '\u{200C}' => Some(("zero-width non-joiner", RiskLevel::Medium)),
        '\u{200D}' => Some(("zero-width joiner", RiskLevel::Medium)),
        '\u{2060}' => Some(("word joiner", RiskLevel::Medium)),
        '\u{FEFF}' => Some(("byte-order mark / zero-width no-break space", RiskLevel::Medium)),
        '\u{200E}' => Some(("left-to-right mark", RiskLevel::Medium)),
        '\u{200F}' => Some(("right-to-left mark", RiskLevel::Medium)),
        _ => None,
    }
}

/// The findings for the hidden characters of `text`, in text order: each
/// covers exactly the bytes of one hidden character.
pub open spec fn hidden_char_findings(text: Seq<char>) -> Seq<FindingView>
    decreases text.len(),
{
    if text.len() == 0 {
        Seq::empty()
    } else {
        let prefix = text.drop_last();
        hidden_char_findings(prefix) + match classify_spec(text.last()) {
            Some((label, risk)) => seq![
                FindingView {
                    rule: NAME@,
                    start: encode_utf8(prefix).len() as int,
                    end: encode_utf8(text).len() as int,
                    message: MESSAGE_PREFIX@ + label,
                    risk,
                },
            ],
            None => Seq::empty(),
        }
    }
}

/// The encoding of the first `k + 1` characters extends that of the first `k`
/// by the encoding of character `k`.
proof fn lemma_take_next(text: Seq<char>, k: int)
    requires
        0 <= k < text.len(),
    ensures
        encode_utf8(text.take(k + 1)) == encode_utf8(text.take(k)) + encode_scalar(text[k] as u32),
        text.take(k + 1).drop_last() == text.take(k),
        text.take(k + 1).last() == text[k],
{
    assert(text.take(k + 1) =~= text.take(k) + seq![text[k]]);
    lemma_encode_concat(text.take(k), seq![text[k]]);
    assert(seq![text[k]].drop_first() =~= Seq::<char>::empty());
    reveal_with_fuel(encode_utf8, 2);
    assert(encode_utf8(seq![text[k]]) =~= encode_scalar(text[k] as u32));
    assert(text.take(k + 1).drop_last() =~= text.take(k));
}

/// Detects hidden characters: bidi overrides and isolates, zero-width
/// characters, directional marks and the byte-order mark.
pub struct DelimiterSmuggle;

impl Rule for DelimiterSmuggle {
    open spec fn spec_name(&self) -> Seq<char> {
        NAME@
    }

    open spec fn scan_spec(&self, text: Seq<char>, out: Seq<FindingView>) -> bool {
        out == hidden_char_findings(text)
    }

    fn name(&self) -> (n: &str) {
        NAME
    }

    fn scan(&self, text: &str) -> (out: Vec<Finding>)
        ensures
            views(out@) == hidden_char_findings(text@),
    {
        let mut out: Vec<Finding> = Vec::new();
        let mut idx: usize = 0;
        let bytes = text.as_bytes();
        let n: usize = bytes.len();
        let ghost total = bytes@.len();
        assert(total == encode_utf8(text@).len() && total == n);
        for ch in it: text.chars()
            invariant
                it.seq() == text@,
                total == encode_utf8(text@).len(),
                total <= usize::MAX,
                idx == encode_utf8(text@.take(it.index())).len(),
                views(out@) == hidden_char_findings(text@.take(it.index())),
                all_in(text@, views(out@)),
        {
            let ghost k = it.index();
            let w = utf8_width(ch);
            proof {
                lemma_take_next(text@, k);
                lemma_prefix_boundary(text@, k);
                lemma_prefix_boundary(text@, k + 1);
                assert(text@[k] == ch);
            }
            let end = idx + w;
            let ghost before = out@;
            match classify(ch) {
                Some((label, risk)) => {
                    let mut message = MESSAGE_PREFIX.to_owned();
                    message.append(label);
                    let f = Finding::new(NAME, idx, end, message.as_str(), risk);
                    out.push(f);
                    proof {
                        assert(views(out@) =~= views(before).push(f@));
                        assert(views(out@) =~= hidden_char_findings(text@.take(k + 1)));
                        assert forall|i: int| 0 <= i < views(out@).len() implies span_in(
                            text@,
                            #[trigger] views(out@)[i].start,
                            views(out@)[i].end,
                        ) by {
                            if i < views(before).len() {
                                assert(views(out@)[i] == views(before)[i]);
                            }
                        }
                    }
                },
                None => {
                    assert(hidden_char_findings(text@.take(k + 1)) =~= hidden_char_findings(text@.take(k)));
                },
            }
            idx = end;
        }
        assert(text@.take(text@.len() as int) =~= text@);
        out
    }
}

} // verus!
