//! Redaction: every maximal run of input bytes covered by a serious enough
//! finding is replaced by one `[REDACTED]` token.
use vstd::prelude::*;
use vstd::utf8::*;
use crate::findings::{views, Finding, FindingView, RiskLevel};
use crate::text::{byte_range, lemma_encode_concat, span_in};

verus! {

broadcast use vstd::utf8::group_utf8_lib;

/// What a redacted run of bytes is replaced with.
pub const REDACTED_TOKEN: &'static str = "[REDACTED]";

/// The finding takes part in redaction at `threshold`: it is serious enough
/// and covers at least one byte.
pub open spec fn redacts(f: FindingView, threshold: RiskLevel) -> bool {
    f.risk.reaches(threshold) && f.start < f.end
}

/// Every finding that redacts at `threshold` covers a byte range of `text`
/// that starts and ends on character boundaries; other findings are free.
pub open spec fn redacting_in(text: Seq<char>, fs: Seq<FindingView>, threshold: RiskLevel) -> bool {
    forall|i: int| 0 <= i < fs.len() && redacts(#[trigger] fs[i], threshold) ==> span_in(text, fs[i].start, fs[i].end)
}

/// Byte `i` of the input lies in the span of a finding that redacts at `threshold`.
pub open spec fn covered(fs: Seq<FindingView>, threshold: RiskLevel, i: int) -> bool {
    exists|j: int| 0 <= j < fs.len() && redacts(#[trigger] fs[j], threshold) && fs[j].start <= i < fs[j].end
}

/// The first `k` bytes of `bytes` after redaction under the coverage `cov`:
/// an uncovered byte is kept, the first byte of each run of covered bytes
/// becomes the token and the rest of the run is dropped.
pub open spec fn redact_upto(bytes: Seq<u8>, cov: spec_fn(int) -> bool, k: int) -> Seq<u8>
    decreases k,
{
    if k <= 0 {
        Seq::empty()
    } else {
        let i = k - 1;
        redact_upto(bytes, cov, i) + if cov(i) {
            if i > 0 && cov(i - 1) {
                Seq::empty()
            } else {
                encode_utf8(REDACTED_TOKEN@)
            }
        } else {
            seq![bytes[i]]
        }
    }
}

/// The UTF-8 bytes of `text` once the findings `fs` that reach `threshold`
/// are redacted.
pub open spec fn redacted_bytes(text: Seq<char>, fs: Seq<FindingView>, threshold: RiskLevel) -> Seq<u8> {
    let bytes = encode_utf8(text);
    redact_upto(bytes, |i: int| covered(fs, threshold, i), bytes.len() as int)
}

/// A run of uncovered bytes is copied unchanged.
pub proof fn lemma_uncovered_run(bytes: Seq<u8>, cov: spec_fn(int) -> bool, a: int, b: int)
    requires
        0 <= a <= b <= bytes.len(),
        forall|i: int| a <= i < b ==> !#[trigger] cov(i),
    ensures
        redact_upto(bytes, cov, b) == redact_upto(bytes, cov, a) + bytes.subrange(a, b),
    decreases b - a,
{
    if a == b {
        assert(bytes.subrange(a, b) =~= Seq::<u8>::empty());
    } else {
        lemma_uncovered_run(bytes, cov, a, b - 1);
        assert(bytes.subrange(a, b) =~= bytes.subrange(a, b - 1).push(bytes[b - 1]));
    }
}

/// A run of covered bytes that starts a run becomes one token.
pub proof fn lemma_covered_run(bytes: Seq<u8>, cov: spec_fn(int) -> bool, a: int, b: int)
    requires
        0 <= a < b,
        a == 0 || !cov(a - 1),
        forall|i: int| a <= i < b ==> #[trigger] cov(i),
    ensures
        redact_upto(bytes, cov, b) == redact_upto(bytes, cov, a) + encode_utf8(REDACTED_TOKEN@),
    decreases b - a,
{
    if b == a + 1 {
    } else {
        lemma_covered_run(bytes, cov, a, b - 1);
        assert(cov(b - 2));
        assert(redact_upto(bytes, cov, b) =~= redact_upto(bytes, cov, b - 1));
    }
}

/// With no covered byte, redaction keeps every byte.
pub proof fn lemma_nothing_covered(bytes: Seq<u8>, cov: spec_fn(int) -> bool)
    requires
        forall|i: int| 0 <= i < bytes.len() ==> !#[trigger] cov(i),
    ensures
        redact_upto(bytes, cov, bytes.len() as int) == bytes,
{
    lemma_uncovered_run(bytes, cov, 0, bytes.len() as int);
    assert(bytes.subrange(0, bytes.len() as int) =~= bytes);
}

/// Byte `i` lies in one of the half-open `spans`.
pub open spec fn span_covers(spans: Seq<(usize, usize)>, i: int) -> bool {
    exists|k: int| 0 <= k < spans.len() && (#[trigger] spans[k]).0 <= i < spans[k].1
}

/// Every span is non-empty and lies in `text` on character boundaries.
pub open spec fn spans_in(text: Seq<char>, spans: Seq<(usize, usize)>) -> bool {
    forall|k: int|
        0 <= k < spans.len() ==> (#[trigger] spans[k]).0 < spans[k].1 && span_in(text, spans[k].0 as int, spans[k].1 as int)
}

/// `a` comes no later than `b` in the order of `(start, end)` pairs.
pub open spec fn pair_le(a: (usize, usize), b: (usize, usize)) -> bool {
    a.0 < b.0 || (a.0 == b.0 && a.1 <= b.1)
}

/// The spans are in `(start, end)` order.
pub open spec fn sorted_pairs(s: Seq<(usize, usize)>) -> bool {
    forall|a: int, b: int| 0 <= a < b < s.len() ==> pair_le(#[trigger] s[a], #[trigger] s[b])
}

/// Each span ends strictly before the next one starts.
pub open spec fn separated(s: Seq<(usize, usize)>) -> bool {
    forall|a: int, b: int| 0 <= a < b < s.len() ==> (#[trigger] s[a]).1 < (#[trigger] s[b]).0
}

/// `s` and `t` hold the same spans, counted without multiplicity.
pub open spec fn same_members(s: Seq<(usize, usize)>, t: Seq<(usize, usize)>) -> bool {
    &&& forall|k: int| 0 <= k < s.len() ==> t.contains(#[trigger] s[k])
    &&& forall|k: int| 0 <= k < t.len() ==> s.contains(#[trigger] t[k])
}

/// The spans of the findings that redact at `threshold`.
fn select_spans(findings: &[Finding], threshold: RiskLevel, Ghost(text): Ghost<Seq<char>>) -> (spans: Vec<(usize, usize)>)
    requires
        redacting_in(text, views(findings@), threshold),
    ensures
        spans_in(text, spans@),
        forall|i: int| span_covers(spans@, i) <==> covered(views(findings@), threshold, i),
{
    let ghost fs = views(findings@);
    let mut spans: Vec<(usize, usize)> = Vec::new();
    let mut j: usize = 0;
    while j < findings.len()
        invariant
            j <= findings.len(),
            fs == views(findings@),
            redacting_in(text, fs, threshold),
            spans_in(text, spans@),
            forall|i: int| span_covers(spans@, i) <==> covered(fs.take(j as int), threshold, i),
        decreases findings.len() - j,
    {
        let f = &findings[j];
        let ghost before = spans@;
        assert(fs[j as int] == f@);
        if f.risk.rank() >= threshold.rank() && f.end > f.start {
            spans.push((f.start, f.end));
            assert(redacts(fs[j as int], threshold));
            assert(span_in(text, fs[j as int].start, fs[j as int].end));
        }
        proof {
            let t = fs.take(j + 1);
            assert(t =~= fs.take(j as int).push(f@));
            assert forall|i: int| span_covers(spans@, i) <==> covered(t, threshold, i) by {
                if span_covers(spans@, i) {
                    let k = choose|k: int| 0 <= k < spans@.len() && (#[trigger] spans@[k]).0 <= i < spans@[k].1;
                    if k < before.len() {
                        assert(before[k] == spans@[k]);
                        assert(span_covers(before, i));
                        let w = choose|w: int|
                            0 <= w < fs.take(j as int).len() && redacts(#[trigger] fs.take(j as int)[w], threshold)
                                && fs.take(j as int)[w].start <= i < fs.take(j as int)[w].end;
                        assert(t[w] == fs.take(j as int)[w]);
                    } else {
                        assert(t[j as int] == f@);
                    }
                }
                if covered(t, threshold, i) {
                    let w = choose|w: int|
                        0 <= w < t.len() && redacts(#[trigger] t[w], threshold) && t[w].start <= i < t[w].end;
                    if w < j {
                        assert(t[w] == fs.take(j as int)[w]);
                        assert(covered(fs.take(j as int), threshold, i));
                        assert(span_covers(before, i));
                        let k = choose|k: int| 0 <= k < before.len() && (#[trigger] before[k]).0 <= i < before[k].1;
                        assert(spans@[k] == before[k]);
                    } else {
                        assert(spans@[spans@.len() - 1] == (f.start, f.end));
                    }
                }
            }
        }
        j += 1;
    }
    assert(fs.take(j as int) =~= fs);
    spans
}

/// The spans in `(start, end)` order.
fn sort_spans(v: &Vec<(usize, usize)>) -> (out: Vec<(usize, usize)>)
    ensures
        sorted_pairs(out@),
        same_members(out@, v@),
{
    let mut out: Vec<(usize, usize)> = Vec::new();
    let mut i: usize = 0;
    while i < v.len()
        invariant
            i <= v.len(),
            sorted_pairs(out@),
            same_members(out@, v@.take(i as int)),
        decreases v.len() - i,
    {
        let x = v[i];
        let mut p: usize = 0;
        while p < out.len() && (out[p].0 < x.0 || (out[p].0 == x.0 && out[p].1 <= x.1))
            invariant
                p <= out.len(),
                forall|a: int| 0 <= a < p ==> pair_le(#[trigger] out@[a], x),
            decreases out.len() - p,
        {
            p += 1;
        }
        let ghost before = out@;
        out.insert(p, x);
        proof {
            assert(out@ =~= before.take(p as int).push(x) + before.skip(p as int));
            assert forall|a: int, b: int| 0 <= a < b < out@.len() implies pair_le(
                #[trigger] out@[a],
                #[trigger] out@[b],
            ) by {
                if p < before.len() {
                    assert(!pair_le(before[p as int], x));
                }
                if a < p && b == p {
                } else if a < p && b > p {
                    assert(out@[b] == before[b - 1]);
                } else if a == p && b > p {
                    assert(out@[b] == before[b - 1]);
                    assert(pair_le(before[p as int], before[b - 1]));
                } else if a > p {
                    assert(out@[a] == before[a - 1]);
                    assert(out@[b] == before[b - 1]);
                }
            }
            let t = v@.take(i + 1);
            assert(t =~= v@.take(i as int).push(x));
            assert forall|k: int| 0 <= k < out@.len() implies t.contains(#[trigger] out@[k]) by {
                if k < p {
                    assert(before.contains(before[k]));
                    assert(v@.take(i as int).contains(before[k]));
                    let m = choose|m: int| 0 <= m < v@.take(i as int).len() && v@.take(i as int)[m] == before[k];
                    assert(t[m] == before[k]);
                } else if k == p {
                    assert(t[i as int] == x);
                } else {
                    assert(out@[k] == before[k - 1]);
                    assert(v@.take(i as int).contains(before[k - 1]));
                    let m = choose|m: int| 0 <= m < v@.take(i as int).len() && v@.take(i as int)[m] == before[k - 1];
                    assert(t[m] == before[k - 1]);
                }
            }
            assert forall|k: int| 0 <= k < t.len() implies out@.contains(#[trigger] t[k]) by {
                if k == i {
                    assert(out@[p as int] == x);
                } else {
                    assert(t[k] == v@.take(i as int)[k]);
                    assert(before.contains(t[k]));
                    let m = choose|m: int| 0 <= m < before.len() && before[m] == t[k];
                    if m < p {
                        assert(out@[m] == t[k]);
                    } else {
                        assert(out@[m + 1] == t[k]);
                    }
                }
            }
        }
        i += 1;
    }
    assert(v@.take(i as int) =~= v@);
    out
}

/// Joins overlapping and touching spans of a sorted list into maximal,
/// separated spans that cover the same bytes.
fn merge_spans(sorted: &Vec<(usize, usize)>, Ghost(text): Ghost<Seq<char>>) -> (merged: Vec<(usize, usize)>)
    requires
        sorted_pairs(sorted@),
        spans_in(text, sorted@),
    ensures
        separated(merged@),
        spans_in(text, merged@),
        forall|i: int| span_covers(merged@, i) <==> span_covers(sorted@, i),
{
    let mut merged: Vec<(usize, usize)> = Vec::new();
    let mut j: usize = 0;
    while j < sorted.len()
        invariant
            j <= sorted.len(),
            sorted_pairs(sorted@),
            spans_in(text, sorted@),
            separated(merged@),
            spans_in(text, merged@),
            forall|i: int| span_covers(merged@, i) <==> span_covers(sorted@.take(j as int), i),
            j > 0 ==> merged@.len() > 0 && merged@.last().0 <= sorted@[j - 1].0,
            j == 0 ==> merged@.len() == 0,
        decreases sorted.len() - j,
    {
        let (s, e) = sorted[j];
        let ghost before = merged@;
        let ghost t = sorted@.take(j + 1);
        assert(t =~= sorted@.take(j as int).push((s, e)));
        assert(s < e && span_in(text, s as int, e as int));
        if j > 0 {
            assert(pair_le(sorted@[j - 1], sorted@[j as int]));
        }
        let n = merged.len();
        if n > 0 && s <= merged[n - 1].1 {
            let (ls, le) = merged[n - 1];
            let ne = if e > le { e } else { le };
            merged.set(n - 1, (ls, ne));
            proof {
                assert(merged@.last() == (ls, ne));
                assert(before.last() == (ls, le));
                assert(ls <= s);
                assert forall|a: int, b: int| 0 <= a < b < merged@.len() implies (#[trigger] merged@[a]).1
                    < (#[trigger] merged@[b]).0 by {
                    assert(merged@[a] == before[a]);
                    assert(before[a].1 < before[b].0);
                }
                assert forall|k: int| 0 <= k < merged@.len() implies (#[trigger] merged@[k]).0 < merged@[k].1
                    && span_in(text, merged@[k].0 as int, merged@[k].1 as int) by {
                    if k < n - 1 {
                        assert(merged@[k] == before[k]);
                    } else {
                        assert(before[k] == (ls, le));
                    }
                }
                assert forall|i: int| span_covers(merged@, i) <==> span_covers(t, i) by {
                    if span_covers(merged@, i) {
                        let k = choose|k: int| 0 <= k < merged@.len() && (#[trigger] merged@[k]).0 <= i < merged@[k].1;
                        if k < n - 1 {
                            assert(before[k] == merged@[k]);
                            assert(span_covers(before, i));
                            let m = choose|m: int| 0 <= m < sorted@.take(j as int).len() && (#[trigger] sorted@.take(j as int)[m]).0 <= i < sorted@.take(j as int)[m].1;
                            assert(t[m] == sorted@.take(j as int)[m]);
                        } else if i < le {
                            assert(before[n - 1] == (ls, le));
                            assert(span_covers(before, i));
                            let m = choose|m: int| 0 <= m < sorted@.take(j as int).len() && (#[trigger] sorted@.take(j as int)[m]).0 <= i < sorted@.take(j as int)[m].1;
                            assert(t[m] == sorted@.take(j as int)[m]);
                        } else {
                            assert(t[j as int] == (s, e));
                        }
                    }
                    if span_covers(t, i) {
                        let m = choose|m: int| 0 <= m < t.len() && (#[trigger] t[m]).0 <= i < t[m].1;
                        if m < j {
                            assert(t[m] == sorted@.take(j as int)[m]);
                            assert(span_covers(sorted@.take(j as int), i));
                            assert(span_covers(before, i));
                            let k = choose|k: int| 0 <= k < before.len() && (#[trigger] before[k]).0 <= i < before[k].1;
                            if k < n - 1 {
                                assert(merged@[k] == before[k]);
                            } else {
                                assert(before[n - 1] == (ls, le));
                                assert(merged@[n - 1] == (ls, ne));
                            }
                        } else {
                            assert(merged@[n - 1] == (ls, ne));
                        }
                    }
                }
            }
        } else {
            merged.push((s, e));
            proof {
                assert forall|a: int, b: int| 0 <= a < b < merged@.len() implies (#[trigger] merged@[a]).1
                    < (#[trigger] merged@[b]).0 by {
                    if b == n {
                        assert(merged@[a] == before[a]);
                        assert(before[n - 1].1 < s);
                        if a < n - 1 {
                            assert(before[a].1 < before[n - 1].0);
                        }
                    } else {
                        assert(merged@[a] == before[a]);
                        assert(merged@[b] == before[b]);
                    }
                }
                assert forall|k: int| 0 <= k < merged@.len() implies (#[trigger] merged@[k]).0 < merged@[k].1
                    && span_in(text, merged@[k].0 as int, merged@[k].1 as int) by {
                    if k < n {
                        assert(merged@[k] == before[k]);
                    }
                }
                assert forall|i: int| span_covers(merged@, i) <==> span_covers(t, i) by {
                    if span_covers(merged@, i) {
                        let k = choose|k: int| 0 <= k < merged@.len() && (#[trigger] merged@[k]).0 <= i < merged@[k].1;
                        if k < n {
                            assert(before[k] == merged@[k]);
                            assert(span_covers(before, i));
                            let m = choose|m: int| 0 <= m < sorted@.take(j as int).len() && (#[trigger] sorted@.take(j as int)[m]).0 <= i < sorted@.take(j as int)[m].1;
                            assert(t[m] == sorted@.take(j as int)[m]);
                        } else {
                            assert(t[j as int] == (s, e));
                        }
                    }
                    if span_covers(t, i) {
                        let m = choose|m: int| 0 <= m < t.len() && (#[trigger] t[m]).0 <= i < t[m].1;
                        if m < j {
                            assert(t[m] == sorted@.take(j as int)[m]);
                            assert(span_covers(sorted@.take(j as int), i));
                            assert(span_covers(before, i));
                            let k = choose|k: int| 0 <= k < before.len() && (#[trigger] before[k]).0 <= i < before[k].1;
                            assert(merged@[k] == before[k]);
                        } else {
                            assert(merged@[n as int] == (s, e));
                        }
                    }
                }
            }
        }
        j += 1;
    }
    assert(sorted@.take(j as int) =~= sorted@);
    merged
}

/// Lists holding the same spans cover the same bytes and share their placement.
proof fn lemma_same_members(text: Seq<char>, s: Seq<(usize, usize)>, t: Seq<(usize, usize)>)
    requires
        same_members(s, t),
        spans_in(text, t),
    ensures
        spans_in(text, s),
        forall|i: int| span_covers(s, i) <==> span_covers(t, i),
{
    assert forall|k: int| 0 <= k < s.len() implies (#[trigger] s[k]).0 < s[k].1 && span_in(text, s[k].0 as int, s[k].1 as int) by {
        assert(t.contains(s[k]));
        let m = choose|m: int| 0 <= m < t.len() && t[m] == s[k];
        assert(t[m] == s[k]);
    }
    assert forall|i: int| span_covers(s, i) <==> span_covers(t, i) by {
        if span_covers(s, i) {
            let k = choose|k: int| 0 <= k < s.len() && (#[trigger] s[k]).0 <= i < s[k].1;
            assert(t.contains(s[k]));
            let m = choose|m: int| 0 <= m < t.len() && t[m] == s[k];
            assert(t[m] == s[k]);
        }
        if span_covers(t, i) {
            let k = choose|k: int| 0 <= k < t.len() && (#[trigger] t[k]).0 <= i < t[k].1;
            assert(s.contains(t[k]));
            let m = choose|m: int| 0 <= m < s.len() && s[m] == t[k];
            assert(s[m] == t[k]);
        }
    }
}

/// Writes `text` with each of the separated spans `merged` replaced by the token.
fn render(text: &str, merged: &Vec<(usize, usize)>, Ghost(cov): Ghost<spec_fn(int) -> bool>) -> (out: String)
    requires
        separated(merged@),
        spans_in(text@, merged@),
        forall|i: int| #[trigger] cov(i) <==> span_covers(merged@, i),
    ensures
        encode_utf8(out@) == redact_upto(encode_utf8(text@), cov, encode_utf8(text@).len() as int),
{
    let ghost bytes = encode_utf8(text@);
    let n: usize = text.as_bytes().len();
    let mut out = String::new();
    let mut cursor: usize = 0;
    let mut j: usize = 0;
    proof {
        is_char_boundary_start_end_of_seq(bytes);
    }
    while j < merged.len()
        invariant
            j <= merged.len(),
            n == bytes.len(),
            bytes == encode_utf8(text@),
            separated(merged@),
            spans_in(text@, merged@),
            forall|i: int| #[trigger] cov(i) <==> span_covers(merged@, i),
            j == 0 ==> cursor == 0,
            j > 0 ==> cursor == merged@[j - 1].1,
            cursor <= n,
            is_char_boundary(bytes, cursor as int),
            encode_utf8(out@) == redact_upto(bytes, cov, cursor as int),
        decreases merged.len() - j,
    {
        let (s, e) = merged[j];
        assert(span_in(text@, s as int, e as int) && s < e);
        proof {
            if j > 0 {
                assert(merged@[j - 1].1 < merged@[j as int].0);
            }
            assert forall|i: int| cursor <= i < s implies !#[trigger] cov(i) by {
                if span_covers(merged@, i) {
                    let k = choose|k: int| 0 <= k < merged@.len() && (#[trigger] merged@[k]).0 <= i < merged@[k].1;
                    if k < j - 1 {
                        assert(merged@[k].1 < merged@[j - 1].0);
                    } else if k >= j + 1 {
                        assert(merged@[j as int].1 < merged@[k].0);
                    }
                }
            }
            assert forall|i: int| s <= i < e implies #[trigger] cov(i) by {
                assert(merged@[j as int] == (s, e));
            }
            lemma_uncovered_run(bytes, cov, cursor as int, s as int);
            lemma_covered_run(bytes, cov, s as int, e as int);
        }
        if s > cursor {
            let piece = byte_range(text, cursor, s);
            let ghost prev = out@;
            out.append(piece);
            proof {
                lemma_encode_concat(prev, piece@);
            }
        }
        let ghost prev = out@;
        out.append(REDACTED_TOKEN);
        proof {
            lemma_encode_concat(prev, REDACTED_TOKEN@);
        }
        cursor = e;
        j += 1;
    }
    proof {
        assert forall|i: int| cursor <= i < n implies !#[trigger] cov(i) by {
            if span_covers(merged@, i) {
                let k = choose|k: int| 0 <= k < merged@.len() && (#[trigger] merged@[k]).0 <= i < merged@[k].1;
                if k < j - 1 {
                    assert(merged@[k].1 < merged@[j - 1].0);
                }
            }
        }
        lemma_uncovered_run(bytes, cov, cursor as int, n as int);
    }
    if cursor < n {
        let piece = byte_range(text, cursor, n);
        let ghost prev = out@;
        out.append(piece);
        proof {
            lemma_encode_concat(prev, piece@);
        }
    } else {
        assert(bytes.subrange(cursor as int, n as int) =~= Seq::<u8>::empty());
    }
    out
}

/// `text` with every maximal run of bytes covered by a finding that reaches
/// `threshold` (and spans at least one byte) replaced by one `[REDACTED]`
/// token; overlapping and touching spans therefore give a single token.
/// Only the findings that redact need to lie in `text`.
pub fn redact(text: &str, findings: &[Finding], threshold: RiskLevel) -> (out: String)
    requires
        redacting_in(text@, views(findings@), threshold),
    ensures
        encode_utf8(out@) == redacted_bytes(text@, views(findings@), threshold),
{
    let ghost fs = views(findings@);
    let ghost cov = |i: int| covered(fs, threshold, i);
    let spans = select_spans(findings, threshold, Ghost(text@));
    if spans.len() == 0 {
        proof {
            let bytes = encode_utf8(text@);
            assert forall|i: int| 0 <= i < bytes.len() implies !#[trigger] cov(i) by {
                if covered(fs, threshold, i) {
                    assert(span_covers(spans@, i));
                }
            }
            lemma_nothing_covered(bytes, cov);
        }
        return text.to_owned();
    }
    let sorted = sort_spans(&spans);
    proof {
        lemma_same_members(text@, sorted@, spans@);
    }
    let merged = merge_spans(&sorted, Ghost(text@));
    render(text, &merged, Ghost(cov))
}

} // verus!
