//! Injections hidden in base64 or hex: long encoded runs are decoded, and
//! the decoded text is scanned by the rules that make sense inside it.
use vstd::prelude::*;
use vstd::utf8::*;
use crate::findings::{highest_risk, join_messages, join_with, max_risk, messages, views, Finding, FindingView};
use crate::pattern::{find_matches, regex_compiles, regex_match_spans, table_findings};
use crate::rule::{all_in, Rule};
use crate::rules::{format_break, role_override, secret_extract, tool_call_inject};
use crate::rules::delimiter_smuggle::hidden_char_findings;
use crate::rules::{DelimiterSmuggle, FormatBreak, RoleOverride, SecretExtract, ToolCallInject};
use crate::text::{byte_range, bytes_of, span_in, string_from_utf8};

verus! {

pub const NAME: &'static str = "encoded_payload";

/// Runs of at least 20 base64 characters, with up to two `=` of padding.
pub const BASE64_RE: &'static str = r"[A-Za-z0-9+/]{20,}={0,2}";

/// Runs of at least 40 hexadecimal digits, in either case.
pub const HEX_RE: &'static str = r"(?i)[0-9a-f]{40,}";

pub const BASE64_PREFIX: &'static str = "base64-encoded payload contains: ";

pub const HEX_PREFIX: &'static str = "hex-encoded payload contains: ";

/// Whether `base64::engine::general_purpose::STANDARD_NO_PAD` decodes
/// `input`, and to which bytes.
pub uninterp spec fn base64_no_pad_decode(input: Seq<u8>) -> Option<Seq<u8>>;

/// Calls `base64::Engine::decode` with the `STANDARD_NO_PAD` engine.
///
/// Trusted: the result is the decoding named by `base64_no_pad_decode`, with
/// `None` for every input the engine rejects. What that decoding is, is not
/// stated.
#[verifier::external_body]
fn base64_decode(input: &[u8]) -> (r: Option<Vec<u8>>)
    ensures
        match r {
            Some(v) => base64_no_pad_decode(input@) == Some(v@),
            None => base64_no_pad_decode(input@) is None,
        },
{
    base64::Engine::decode(&base64::engine::general_purpose::STANDARD_NO_PAD, input).ok()
}

/// A control character (Unicode general category `Cc`).
pub open spec fn is_control(c: char) -> bool {
    (c as u32) <= 0x1F || (0x7F <= (c as u32) && (c as u32) <= 0x9F)
}

/// A character that counts as printable: not a control character, or a
/// newline or a tab.
pub open spec fn is_printable(c: char) -> bool {
    !is_control(c) || c == '\n' || c == '\t'
}

/// The number of printable characters in `s`.
pub open spec fn printable_count(s: Seq<char>) -> nat
    decreases s.len(),
{
    if s.len() == 0 {
        0
    } else {
        printable_count(s.drop_last()) + if is_printable(s.last()) {
            1nat
        } else {
            0nat
        }
    }
}

/// `s` is not empty and at least four fifths of its characters are printable.
pub open spec fn mostly_printable(s: Seq<char>) -> bool {
    s.len() > 0 && 5 * printable_count(s) >= 4 * s.len()
}

/// Whether the text `s` is mostly printable.
fn printable_enough(s: &str) -> (r: bool)
    ensures
        r == mostly_printable(s@),
{
    let mut printable: usize = 0;
    let mut total: usize = 0;
    let n: usize = s.as_bytes().len();
    proof {
        crate::text::lemma_encode_len(s@);
    }
    for c in it: s.chars()
        invariant
            it.seq() == s@,
            total == it.index(),
            printable == printable_count(s@.take(it.index())),
            printable <= total,
            s@.len() <= n,
    {
        let ghost k = it.index();
        let v: u32 = c as u32;
        let control = v <= 0x1F || (0x7F <= v && v <= 0x9F);
        if !control || c == '\n' || c == '\t' {
            printable = printable + 1;
        }
        total = total + 1;
        proof {
            let t = s@.take(k + 1);
            assert(t.drop_last() =~= s@.take(k));
            assert(t.last() == c);
        }
    }
    assert(s@.take(s@.len() as int) =~= s@);
    let p: u128 = printable as u128;
    let t: u128 = total as u128;
    total > 0 && p * 5 >= t * 4
}

/// The value of a hexadecimal digit.
pub open spec fn hex_digit(b: u8) -> Option<u8> {
    if 0x30 <= b <= 0x39 {
        Some((b - 0x30) as u8)
    } else if 0x61 <= b <= 0x66 {
        Some((b - 0x61 + 10) as u8)
    } else if 0x41 <= b <= 0x46 {
        Some((b - 0x41 + 10) as u8)
    } else {
        None
    }
}

fn hex_val(b: u8) -> (r: Option<u8>)
    ensures
        r == hex_digit(b),
{
    if 0x30u8 <= b && b <= 0x39u8 {
        Some(b - 0x30u8)
    } else if 0x61u8 <= b && b <= 0x66u8 {
        Some(10 + b - 0x61u8)
    } else if 0x41u8 <= b && b <= 0x46u8 {
        Some(10 + b - 0x41u8)
    } else {
        None
    }
}

/// The bytes spelled by `s` read as pairs of hexadecimal digits, high digit
/// first; `None` when a digit is not hexadecimal. A final odd digit is ignored.
pub open spec fn hex_pairs(s: Seq<u8>) -> Option<Seq<u8>>
    decreases s.len(),
{
    if s.len() < 2 {
        Some(Seq::empty())
    } else {
        let n = s.len() as int;
        match (hex_pairs(s.take(n - 2)), hex_digit(s[n - 2]), hex_digit(s[n - 1])) {
            (Some(r), Some(h), Some(l)) => Some(r.push((h * 16 + l) as u8)),
            _ => None,
        }
    }
}

/// Decoded bytes are accepted as text when they are UTF-8 and mostly printable.
pub open spec fn accept_decoded(raw: Seq<u8>) -> Option<Seq<char>> {
    if valid_utf8(raw) && mostly_printable(decode_utf8(raw)) {
        Some(decode_utf8(raw))
    } else {
        None
    }
}

/// `m` without its trailing `=` bytes.
pub open spec fn trim_padding(m: Seq<u8>) -> Seq<u8>
    decreases m.len(),
{
    if m.len() > 0 && m.last() == 0x3Du8 {
        trim_padding(m.drop_last())
    } else {
        m
    }
}

/// A run of `k` `=` bytes.
pub open spec fn padding(k: nat) -> Seq<u8> {
    Seq::new(k, |i: int| 0x3Du8)
}

proof fn lemma_trim_padding_absorbs(m: Seq<u8>, k: nat)
    ensures
        trim_padding(m + padding(k)) == trim_padding(m),
    decreases k,
{
    if k == 0 {
        assert(m + padding(0) =~= m);
    } else {
        let x = m + padding(k);
        assert(x.drop_last() =~= m + padding((k - 1) as nat));
        lemma_trim_padding_absorbs(m, (k - 1) as nat);
    }
}

/// The text hidden in the base64 run `m`: its trailing padding removed, the
/// rest decoded without padding, and the bytes accepted as text.
pub open spec fn decode_base64_spec(m: Seq<u8>) -> Option<Seq<char>> {
    match base64_no_pad_decode(trim_padding(m)) {
        Some(raw) => accept_decoded(raw),
        None => None,
    }
}

/// The text hidden in the hexadecimal run `m`: an even number of digits,
/// decoded pair by pair, and the bytes accepted as text.
pub open spec fn decode_hex_spec(m: Seq<u8>) -> Option<Seq<char>> {
    if m.len() % 2 != 0 {
        None
    } else {
        match hex_pairs(m) {
            Some(raw) => accept_decoded(raw),
            None => None,
        }
    }
}

/// Bytes decoded from a run are turned into accepted text.
fn accept_bytes(raw: Vec<u8>) -> (r: Option<String>)
    ensures
        match r {
            Some(s) => accept_decoded(raw@) == Some(s@),
            None => accept_decoded(raw@) is None,
        },
{
    match string_from_utf8(raw) {
        Some(decoded) => {
            if !printable_enough(decoded.as_str()) {
                return None;
            }
            Some(decoded)
        },
        None => None,
    }
}

/// Decodes a base64 run, padding it to a multiple of four and then dropping
/// the padding, as the decoder takes no padding.
fn decode_base64(s: &str) -> (r: Option<String>)
    ensures
        match r {
            Some(d) => decode_base64_spec(encode_utf8(s@)) == Some(d@),
            None => decode_base64_spec(encode_utf8(s@)) is None,
        },
{
    let ghost src = encode_utf8(s@);
    let mut padded = bytes_of(s);
    let ghost mut k: nat = 0;
    assert(padded@ =~= src + padding(0));
    while padded.len() % 4 != 0
        invariant
            padded@ == src + padding(k),
        decreases (4 - padded@.len() % 4) % 4,
    {
        padded.push(0x3Du8);
        proof {
            assert(padded@ =~= src + padding(k + 1));
            k = k + 1;
        }
    }
    proof {
        lemma_trim_padding_absorbs(src, k);
    }
    let mut end: usize = padded.len();
    assert(padded@.take(end as int) =~= padded@);
    while end > 0 && padded[end - 1] == 0x3Du8
        invariant
            end <= padded@.len(),
            trim_padding(padded@.take(end as int)) == trim_padding(padded@),
        decreases end,
    {
        assert(padded@.take(end as int).drop_last() =~= padded@.take(end - 1));
        end -= 1;
    }
    let stripped = vstd::slice::slice_subrange(padded.as_slice(), 0, end);
    assert(stripped@ =~= padded@.take(end as int));
    assert(trim_padding(stripped@) == stripped@);
    match base64_decode(stripped) {
        Some(raw) => accept_bytes(raw),
        None => None,
    }
}

proof fn lemma_hex_pairs_none_extends(s: Seq<u8>, k: int, m: int)
    requires
        0 <= k <= m <= s.len(),
        k % 2 == 0,
        m % 2 == 0,
        k >= 2,
        hex_pairs(s.take(k)) is None,
    ensures
        hex_pairs(s.take(m)) is None,
    decreases m - k,
{
    if m > k {
        lemma_hex_pairs_none_extends(s, k, m - 2);
        assert(s.take(m).take(m - 2) =~= s.take(m - 2));
    }
}

/// Decodes a hexadecimal run of an even number of digits.
fn decode_hex(s: &str) -> (r: Option<String>)
    ensures
        match r {
            Some(d) => decode_hex_spec(encode_utf8(s@)) == Some(d@),
            None => decode_hex_spec(encode_utf8(s@)) is None,
        },
{
    let s_bytes = s.as_bytes();
    let ghost src = s_bytes@;
    if s_bytes.len() % 2 != 0 {
        return None;
    }
    let mut bytes: Vec<u8> = Vec::new();
    let mut i: usize = 0;
    assert(src.take(0) =~= Seq::<u8>::empty());
    while i < s_bytes.len()
        invariant
            src == s_bytes@,
            src == encode_utf8(s@),
            src.len() % 2 == 0,
            i <= src.len(),
            i % 2 == 0,
            hex_pairs(src.take(i as int)) == Some(bytes@),
        decreases s_bytes.len() - i,
    {
        let ghost t = src.take(i + 2);
        assert(t.take(i as int) =~= src.take(i as int));
        assert(t[i as int] == src[i as int] && t[i + 1] == src[i + 1]);
        let hi = match hex_val(s_bytes[i]) {
            Some(v) => v,
            None => {
                proof {
                    assert(hex_pairs(t) is None);
                    lemma_hex_pairs_none_extends(src, i + 2, src.len() as int);
                    assert(src.take(src.len() as int) =~= src);
                }
                return None;
            },
        };
        let lo = match hex_val(s_bytes[i + 1]) {
            Some(v) => v,
            None => {
                proof {
                    assert(hex_pairs(t) is None);
                    lemma_hex_pairs_none_extends(src, i + 2, src.len() as int);
                    assert(src.take(src.len() as int) =~= src);
                }
                return None;
            },
        };
        assert((hi << 4u8) | lo == hi * 16 + lo) by (bit_vector)
            requires
                hi < 16,
                lo < 16,
        ;
        bytes.push((hi << 4u8) | lo);
        i += 2;
    }
    assert(src.take(i as int) =~= src);
    accept_bytes(bytes)
}

/// The findings of the rules that run inside a decoded payload: every
/// built-in rule but this one, in their usual order.
pub open spec fn inner_findings(d: Seq<char>) -> Seq<FindingView> {
    table_findings(role_override::NAME@, role_override::patterns_spec(), d)
        + table_findings(tool_call_inject::NAME@, tool_call_inject::patterns_spec(), d)
        + table_findings(secret_extract::NAME@, secret_extract::patterns_spec(), d)
        + table_findings(format_break::NAME@, format_break::patterns_spec(), d)
        + hidden_char_findings(d)
}

/// Runs the rules that make sense inside a decoded payload.
fn inner_scan(text: &str) -> (out: Vec<Finding>)
    ensures
        views(out@) == inner_findings(text@),
{
    let mut out = RoleOverride.scan(text);
    let mut more = ToolCallInject.scan(text);
    out.append(&mut more);
    let mut more = SecretExtract.scan(text);
    out.append(&mut more);
    let mut more = FormatBreak.scan(text);
    out.append(&mut more);
    let mut more = DelimiterSmuggle.scan(text);
    out.append(&mut more);
    proof {
        let a = table_findings(role_override::NAME@, role_override::patterns_spec(), text@);
        let b = table_findings(tool_call_inject::NAME@, tool_call_inject::patterns_spec(), text@);
        let c = table_findings(secret_extract::NAME@, secret_extract::patterns_spec(), text@);
        let d = table_findings(format_break::NAME@, format_break::patterns_spec(), text@);
        let e = hidden_char_findings(text@);
        assert(views(out@) =~= a + b + c + d + e);
    }
    out
}

/// The two encodings a payload may use.
#[derive(Clone, Copy, PartialEq, Eq, Structural)]
pub enum Encoding {
    Base64,
    Hex,
}

/// The text hidden in the run `m` in the encoding `enc`.
pub open spec fn decode_payload(enc: Encoding, m: Seq<u8>) -> Option<Seq<char>> {
    match enc {
        Encoding::Base64 => decode_base64_spec(m),
        Encoding::Hex => decode_hex_spec(m),
    }
}

/// The start of the message of a finding in the encoding `enc`.
pub open spec fn payload_prefix(enc: Encoding) -> Seq<char> {
    match enc {
        Encoding::Base64 => BASE64_PREFIX@,
        Encoding::Hex => HEX_PREFIX@,
    }
}

/// The finding for the encoded run `span` of `text`, if its decoded text
/// triggers an inner rule: it covers the run, lists the inner messages and
/// carries their highest risk.
pub open spec fn payload_finding(text: Seq<char>, span: (usize, usize), enc: Encoding) -> Seq<FindingView> {
    let m = encode_utf8(text).subrange(span.0 as int, span.1 as int);
    match decode_payload(enc, m) {
        Some(d) => {
            let inner = inner_findings(d);
            if inner.len() > 0 {
                seq![
                    FindingView {
                        rule: NAME@,
                        start: span.0 as int,
                        end: span.1 as int,
                        message: payload_prefix(enc) + join_with(messages(inner), "; "@),
                        risk: max_risk(inner),
                    },
                ]
            } else {
                Seq::empty()
            }
        },
        None => Seq::empty(),
    }
}

/// The findings for the encoded runs `spans` of `text`, in order.
pub open spec fn payload_findings(text: Seq<char>, spans: Seq<(usize, usize)>, enc: Encoding) -> Seq<FindingView>
    decreases spans.len(),
{
    if spans.len() == 0 {
        Seq::empty()
    } else {
        payload_findings(text, spans.drop_last(), enc) + payload_finding(text, spans.last(), enc)
    }
}

/// Appends to `out` the findings for the encoded runs `spans` of `text`.
pub fn push_payload_findings(out: &mut Vec<Finding>, text: &str, spans: &Vec<(usize, usize)>, enc: Encoding)
    requires
        forall|k: int| 0 <= k < spans@.len() ==> span_in(text@, (#[trigger] spans@[k]).0 as int, spans@[k].1 as int),
    ensures
        views(final(out)@) == views(old(out)@) + payload_findings(text@, spans@, enc),
{
    let ghost start = views(out@);
    let mut i: usize = 0;
    while i < spans.len()
        invariant
            i <= spans@.len(),
            forall|k: int| 0 <= k < spans@.len() ==> span_in(text@, (#[trigger] spans@[k]).0 as int, spans@[k].1 as int),
            views(out@) == start + payload_findings(text@, spans@.take(i as int), enc),
        decreases spans.len() - i,
    {
        let (s, e) = spans[i];
        assert(span_in(text@, s as int, e as int));
        proof {
            let t = spans@.take(i + 1);
            assert(t.drop_last() =~= spans@.take(i as int));
            assert(t.last() == (s, e));
        }
        let m = byte_range(text, s, e);
        let decoded = match enc {
            Encoding::Base64 => decode_base64(m),
            Encoding::Hex => decode_hex(m),
        };
        let ghost before = views(out@);
        match decoded {
            Some(d) => {
                let inner = inner_scan(d.as_str());
                if inner.len() > 0 {
                    let joined = join_messages(inner.as_slice(), "; ");
                    let mut message = match enc {
                        Encoding::Base64 => BASE64_PREFIX.to_owned(),
                        Encoding::Hex => HEX_PREFIX.to_owned(),
                    };
                    message.append(joined.as_str());
                    let risk = highest_risk(inner.as_slice());
                    let f = Finding::new(NAME, s, e, message.as_str(), risk);
                    out.push(f);
                    assert(views(out@) =~= before.push(f@));
                } else {
                    assert(views(out@) =~= before + Seq::<FindingView>::empty());
                }
            },
            None => {
                assert(views(out@) =~= before + Seq::<FindingView>::empty());
            },
        }
        i += 1;
    }
    assert(spans@.take(i as int) =~= spans@);
}

/// The findings of the rule in `text`: first for the base64 runs, then for
/// the hexadecimal runs, each in text order.
pub open spec fn encoded_findings(text: Seq<char>) -> Seq<FindingView> {
    (if regex_compiles(BASE64_RE@) {
        payload_findings(text, regex_match_spans(BASE64_RE@, text), Encoding::Base64)
    } else {
        Seq::empty()
    }) + (if regex_compiles(HEX_RE@) {
        payload_findings(text, regex_match_spans(HEX_RE@, text), Encoding::Hex)
    } else {
        Seq::empty()
    })
}

/// Payloads in every finding lie on the spans they were decoded from.
proof fn lemma_payload_spans(text: Seq<char>, spans: Seq<(usize, usize)>, enc: Encoding)
    requires
        forall|k: int| 0 <= k < spans.len() ==> span_in(text, (#[trigger] spans[k]).0 as int, spans[k].1 as int),
    ensures
        all_in(text, payload_findings(text, spans, enc)),
    decreases spans.len(),
{
    if spans.len() > 0 {
        let rest = spans.drop_last();
        assert forall|k: int| 0 <= k < rest.len() implies span_in(text, (#[trigger] rest[k]).0 as int, rest[k].1 as int) by {
            assert(rest[k] == spans[k]);
        }
        lemma_payload_spans(text, rest, enc);
        let a = payload_findings(text, rest, enc);
        let b = payload_finding(text, spans.last(), enc);
        assert(span_in(text, spans[spans.len() - 1].0 as int, spans[spans.len() - 1].1 as int));
        assert forall|i: int| 0 <= i < (a + b).len() implies span_in(text, #[trigger] (a + b)[i].start, (a + b)[i].end) by {
            if i < a.len() {
                assert((a + b)[i] == a[i]);
            } else {
                assert((a + b)[i] == b[i - a.len()]);
            }
        }
    }
}

/// Detects base64 and hexadecimal runs whose decoded text holds an injection
/// that the role-override, tool-call, secret-extraction or format-break rules
/// report, or a hidden character that the delimiter rule reports.
pub struct EncodedPayload;

impl Rule for EncodedPayload {
    open spec fn spec_name(&self) -> Seq<char> {
        NAME@
    }

    open spec fn scan_spec(&self, text: Seq<char>, out: Seq<FindingView>) -> bool {
        out == encoded_findings(text)
    }

    fn name(&self) -> (n: &str) {
        NAME
    }

    fn scan(&self, text: &str) -> (out: Vec<Finding>)
        ensures
            views(out@) == encoded_findings(text@),
    {
        let mut out: Vec<Finding> = Vec::new();
        match find_matches(BASE64_RE, text) {
            Some(spans) => {
                push_payload_findings(&mut out, text, &spans, Encoding::Base64);
                proof {
                    lemma_payload_spans(text@, spans@, Encoding::Base64);
                }
            },
            None => {},
        }
        let ghost first = views(out@);
        match find_matches(HEX_RE, text) {
            Some(spans) => {
                push_payload_findings(&mut out, text, &spans, Encoding::Hex);
                proof {
                    lemma_payload_spans(text@, spans@, Encoding::Hex);
                }
            },
            None => {},
        }
        proof {
            assert(views(out@) =~= encoded_findings(text@));
            let v = views(out@);
            assert forall|i: int| 0 <= i < v.len() implies span_in(text@, #[trigger] v[i].start, v[i].end) by {
                if i < first.len() {
                    assert(v[i] == first[i]);
                } else {
                    assert(v[i] == (v.subrange(first.len() as int, v.len() as int))[i - first.len()]);
                }
            }
        }
        out
    }
}

} // verus!
