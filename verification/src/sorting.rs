//! The order of findings in a report: by span start, then by rule name,
//! keeping the order of arrival among equal keys.
use vstd::prelude::*;
use vstd::utf8::*;
use crate::findings::{views, Finding, FindingView};

verus! {

/// `a` comes strictly before `b` in lexicographic byte order (a proper
/// prefix comes first), the order of `str`.
pub open spec fn bytes_lt(a: Seq<u8>, b: Seq<u8>) -> bool
    decreases a.len(),
{
    if a.len() == 0 {
        b.len() > 0
    } else if b.len() == 0 {
        false
    } else if a[0] != b[0] {
        a[0] < b[0]
    } else {
        bytes_lt(a.drop_first(), b.drop_first())
    }
}

/// `bytes_lt` is a strict total order.
pub proof fn lemma_bytes_lt_order(a: Seq<u8>, b: Seq<u8>, c: Seq<u8>)
    ensures
        !bytes_lt(a, a),
        bytes_lt(a, b) || bytes_lt(b, a) || a == b,
        bytes_lt(a, b) ==> !bytes_lt(b, a),
        bytes_lt(a, b) && bytes_lt(b, c) ==> bytes_lt(a, c),
    decreases a.len(),
{
    if a.len() > 0 && b.len() > 0 && c.len() > 0 {
        lemma_bytes_lt_order(a.drop_first(), b.drop_first(), c.drop_first());
    } else if a.len() > 0 && b.len() > 0 {
        lemma_bytes_lt_order(a.drop_first(), b.drop_first(), b.drop_first());
    } else if a.len() > 0 {
        lemma_bytes_lt_order(a.drop_first(), a.drop_first(), a.drop_first());
    }
    if a.len() > 0 && b.len() > 0 && a[0] == b[0] && !bytes_lt(a, b) && !bytes_lt(b, a) {
        assert(a.drop_first() == b.drop_first());
        assert(a =~= seq![a[0]] + a.drop_first());
        assert(b =~= seq![b[0]] + b.drop_first());
    }
    if a.len() == 0 && b.len() == 0 {
        assert(a =~= b);
    }
}

/// The sort key of a finding: its start, then the bytes of its rule name.
pub open spec fn key_lt(a: FindingView, b: FindingView) -> bool {
    a.start < b.start || (a.start == b.start && bytes_lt(encode_utf8(a.rule), encode_utf8(b.rule)))
}

/// Two findings have the same sort key.
pub open spec fn key_eq(a: FindingView, b: FindingView) -> bool {
    a.start == b.start && encode_utf8(a.rule) == encode_utf8(b.rule)
}

/// `a`, which came `ia`-th, goes before `b`, which came `ib`-th: its key is
/// smaller, or the keys are equal and it came first.
pub open spec fn goes_before(a: FindingView, ia: int, b: FindingView, ib: int) -> bool {
    key_lt(a, b) || (key_eq(a, b) && ia < ib)
}

/// `p` maps each position of `out` to the position of `inp` it came from,
/// and `out` is in key order with ties in order of arrival.
pub open spec fn sort_witness(out: Seq<FindingView>, inp: Seq<FindingView>, p: Seq<int>) -> bool {
    &&& out.len() == inp.len()
    &&& p.len() == out.len()
    &&& forall|i: int| 0 <= i < out.len() ==> 0 <= #[trigger] p[i] < inp.len() && out[i] == inp[p[i]]
    &&& forall|i: int, j: int|
        0 <= i < j < out.len() ==> goes_before(#[trigger] out[i], p[i], #[trigger] out[j], p[j])
}

/// `out` is `inp` stably sorted by start, then rule name.
pub open spec fn stable_sorted(out: Seq<FindingView>, inp: Seq<FindingView>) -> bool {
    exists|p: Seq<int>| sort_witness(out, inp, p)
}

/// A stable sort by key is, in particular, in order of span start.
pub proof fn lemma_stable_sorted_by_start(out: Seq<FindingView>, inp: Seq<FindingView>)
    requires
        stable_sorted(out, inp),
    ensures
        out.len() == inp.len(),
        forall|i: int, j: int| 0 <= i < j < out.len() ==> (#[trigger] out[i]).start <= (#[trigger] out[j]).start,
{
    let p = choose|p: Seq<int>| sort_witness(out, inp, p);
    assert forall|i: int, j: int| 0 <= i < j < out.len() implies (#[trigger] out[i]).start <= (#[trigger] out[j]).start by {
        assert(goes_before(out[i], p[i], out[j], p[j]));
    }
}

/// No finding goes before itself, and of two findings at least one does not
/// go before the other.
proof fn lemma_goes_before_asym(a: FindingView, ia: int, b: FindingView, ib: int)
    ensures
        !goes_before(a, ia, a, ia),
        !(goes_before(a, ia, b, ib) && goes_before(b, ib, a, ia)),
{
    lemma_bytes_lt_order(encode_utf8(a.rule), encode_utf8(b.rule), encode_utf8(a.rule));
    lemma_bytes_lt_order(encode_utf8(a.rule), encode_utf8(a.rule), encode_utf8(a.rule));
}

/// Some position of `p` holds `a`.
spec fn hits(p: Seq<int>, a: int) -> bool {
    exists|j: int| 0 <= j < p.len() && #[trigger] p[j] == a
}

/// A witness maps distinct positions to distinct positions, and so reaches
/// every position of the input.
proof fn lemma_witness_onto(out: Seq<FindingView>, inp: Seq<FindingView>, p: Seq<int>)
    requires
        sort_witness(out, inp, p),
    ensures
        forall|i: int, j: int| 0 <= i < out.len() && 0 <= j < out.len() && i != j ==> #[trigger] p[i] != #[trigger] p[j],
        forall|a: int| 0 <= a < inp.len() ==> #[trigger] hits(p, a),
{
    assert forall|i: int, j: int| 0 <= i < out.len() && 0 <= j < out.len() && i != j implies #[trigger] p[i] != #[trigger] p[j] by {
        lemma_goes_before_asym(out[i], p[i], out[j], p[j]);
        if i < j {
            assert(goes_before(out[i], p[i], out[j], p[j]));
        } else {
            assert(goes_before(out[j], p[j], out[i], p[i]));
        }
    }
    let n = inp.len() as int;
    let range = vstd::set_lib::set_int_range(0, n);
    let f = |i: int| p[i];
    let image = range.map(f);
    vstd::set_lib::lemma_int_range(0, n);
    assert(vstd::relations::injective_on(f, range)) by {
        assert forall|x: int, y: int| range.contains(x) && range.contains(y) && #[trigger] f(x) == #[trigger] f(y) implies x == y by {
            if x != y {
                assert(p[x] != p[y]);
            }
        }
    }
    vstd::set_lib::lemma_map_size(range, image, f);
    assert(image.subset_of(range)) by {
        assert forall|a: int| image.contains(a) implies range.contains(a) by {
            let i = choose|i: int| range.contains(i) && f(i) == a;
        }
    }
    vstd::set_lib::lemma_subset_equality(image, range);
    assert forall|a: int| 0 <= a < inp.len() implies #[trigger] hits(p, a) by {
        assert(range.contains(a));
        assert(image.contains(a));
        let j = choose|j: int| range.contains(j) && f(j) == a;
        assert(p[j] == a);
    }
}

/// Two witnesses of stable sorts of one input agree on their first `i`
/// positions.
proof fn lemma_witnesses_agree(
    out1: Seq<FindingView>,
    out2: Seq<FindingView>,
    inp: Seq<FindingView>,
    p: Seq<int>,
    q: Seq<int>,
    i: int,
)
    requires
        sort_witness(out1, inp, p),
        sort_witness(out2, inp, q),
        0 <= i <= inp.len(),
    ensures
        forall|k: int| 0 <= k < i ==> p[k] == q[k],
    decreases i,
{
    if i > 0 {
        let m = i - 1;
        lemma_witnesses_agree(out1, out2, inp, p, q, m);
        lemma_witness_onto(out1, inp, p);
        lemma_witness_onto(out2, inp, q);
        if p[m] != q[m] {
            assert(hits(q, p[m]));
            assert(hits(p, q[m]));
            let j = choose|j: int| 0 <= j < inp.len() && #[trigger] q[j] == p[m];
            let jj = choose|j: int| 0 <= j < inp.len() && #[trigger] p[j] == q[m];
            if j < m {
                assert(p[j] == q[j]);
                assert(p[j] != p[m]);
            }
            if jj < m {
                assert(q[jj] == p[jj]);
                assert(q[jj] != q[m]);
            }
            assert(goes_before(out2[m], q[m], out2[j], q[j]));
            assert(goes_before(out1[m], p[m], out1[jj], p[jj]));
            lemma_goes_before_asym(inp[p[m]], p[m], inp[q[m]], q[m]);
        }
    }
}

/// The stable sort of a sequence is unique.
pub proof fn lemma_stable_sorted_unique(out1: Seq<FindingView>, out2: Seq<FindingView>, inp: Seq<FindingView>)
    requires
        stable_sorted(out1, inp),
        stable_sorted(out2, inp),
    ensures
        out1 == out2,
{
    let p = choose|p: Seq<int>| sort_witness(out1, inp, p);
    let q = choose|q: Seq<int>| sort_witness(out2, inp, q);
    let n = inp.len() as int;
    lemma_witnesses_agree(out1, out2, inp, p, q, n);
    assert forall|k: int| 0 <= k < n implies out1[k] == out2[k] by {
        assert(out1[k] == inp[p[k]]);
        assert(out2[k] == inp[q[k]]);
    }
    assert(out1 =~= out2);
}

/// A stable sort by key keeps every finding exactly once.
pub proof fn lemma_stable_sorted_permutes(out: Seq<FindingView>, inp: Seq<FindingView>)
    requires
        stable_sorted(out, inp),
    ensures
        out.to_multiset() == inp.to_multiset(),
{
    let p = choose|p: Seq<int>| sort_witness(out, inp, p);
    lemma_witness_permutes(out, inp, p);
}

proof fn lemma_witness_permutes(out: Seq<FindingView>, inp: Seq<FindingView>, p: Seq<int>)
    requires
        sort_witness(out, inp, p),
    ensures
        out.to_multiset() == inp.to_multiset(),
    decreases out.len(),
{
    broadcast use vstd::seq_lib::group_to_multiset_ensures;
    broadcast use vstd::multiset::group_multiset_axioms;

    if out.len() == 0 {
        assert(inp.len() == 0);
        assert(inp =~= Seq::<FindingView>::empty());
        assert(out =~= Seq::<FindingView>::empty());
    } else {
        let n = out.len() as int;
        let k = p[n - 1];
        assert forall|i: int, j: int| 0 <= i < j < n implies p[i] != p[j] by {
            lemma_bytes_lt_order(encode_utf8(out[i].rule), encode_utf8(out[j].rule), encode_utf8(out[j].rule));
            assert(goes_before(out[i], p[i], out[j], p[j]));
        }
        let inp2 = inp.remove(k);
        let out2 = out.drop_last();
        let p2 = Seq::new((n - 1) as nat, |i: int| if p[i] < k { p[i] } else { p[i] - 1 });
        assert forall|i: int| 0 <= i < out2.len() implies 0 <= #[trigger] p2[i] < inp2.len() && out2[i]
            == inp2[p2[i]] by {
            assert(p[i] != p[n - 1]);
        }
        assert forall|i: int, j: int| 0 <= i < j < out2.len() implies goes_before(
            #[trigger] out2[i],
            p2[i],
            #[trigger] out2[j],
            p2[j],
        ) by {
            assert(goes_before(out[i], p[i], out[j], p[j]));
        }
        lemma_witness_permutes(out2, inp2, p2);
        assert(out =~= out2.push(out[n - 1]));
        assert(inp2.to_multiset() == inp.to_multiset().remove(inp[k]));
        assert(inp.to_multiset().contains(inp[k]));
    }
}

/// Whether `a` comes strictly before `b` in lexicographic byte order.
fn str_lt(a: &str, b: &str) -> (r: bool)
    ensures
        r == bytes_lt(encode_utf8(a@), encode_utf8(b@)),
{
    let x = a.as_bytes();
    let y = b.as_bytes();
    let mut i: usize = 0;
    assert(x@.skip(0) =~= x@ && y@.skip(0) =~= y@);
    assert(x@ == encode_utf8(a@) && y@ == encode_utf8(b@));
    while i < x.len() && i < y.len()
        invariant
            i <= x@.len(),
            i <= y@.len(),
            bytes_lt(x@, y@) == bytes_lt(x@.skip(i as int), y@.skip(i as int)),
            x@ == encode_utf8(a@),
            y@ == encode_utf8(b@),
        decreases x.len() - i,
    {
        if x[i] != y[i] {
            let ghost xs = x@.skip(i as int);
            let ghost ys = y@.skip(i as int);
            assert(xs[0] == x@[i as int] && ys[0] == y@[i as int]);
            assert(xs.len() > 0 && ys.len() > 0);
            assert(bytes_lt(xs, ys) == (xs[0] < ys[0]));
            return x[i] < y[i];
        }
        assert(x@.skip(i as int).drop_first() =~= x@.skip(i + 1));
        assert(y@.skip(i as int).drop_first() =~= y@.skip(i + 1));
        i += 1;
    }
    assert(x@.skip(i as int).len() == 0 || y@.skip(i as int).len() == 0);
    i < y.len()
}

/// Whether `a` goes strictly before `b` by start, then rule name.
fn finding_key_lt(a: &Finding, b: &Finding) -> (r: bool)
    ensures
        r == key_lt(a@, b@),
{
    if a.start != b.start {
        a.start < b.start
    } else {
        str_lt(a.rule.as_str(), b.rule.as_str())
    }
}

/// `findings` stably sorted by span start, then by rule name.
pub fn sort_findings(findings: Vec<Finding>) -> (out: Vec<Finding>)
    ensures
        stable_sorted(views(out@), views(findings@)),
{
    let ghost inp = views(findings@);
    let ghost n = inp.len() as int;
    let mut rest = findings;
    let mut out: Vec<Finding> = Vec::new();
    let ghost mut p: Seq<int> = Seq::empty();
    while rest.len() > 0
        invariant
            views(rest@) == inp.take(rest@.len() as int),
            rest@.len() <= n,
            n == inp.len(),
            out@.len() == n - rest@.len(),
            p.len() == out@.len(),
            forall|i: int|
                0 <= i < out@.len() ==> rest@.len() <= #[trigger] p[i] < n && views(out@)[i] == inp[p[i]],
            forall|i: int, j: int|
                0 <= i < j < out@.len() ==> goes_before(
                    #[trigger] views(out@)[i],
                    p[i],
                    #[trigger] views(out@)[j],
                    p[j],
                ),
        decreases rest.len(),
    {
        let ghost m = rest@.len() as int;
        let x = rest.pop().unwrap();
        proof {
            assert(views(rest@) =~= inp.take(m - 1));
            assert(x@ == inp.take(m)[m - 1]);
        }
        let mut q: usize = 0;
        while q < out.len() && finding_key_lt(&out[q], &x)
            invariant
                q <= out@.len(),
                forall|a: int| 0 <= a < q ==> key_lt(#[trigger] views(out@)[a], x@),
            decreases out.len() - q,
        {
            q += 1;
        }
        let ghost before = views(out@);
        let ghost pb = p;
        out.insert(q, x);
        proof {
            p = pb.insert(q as int, m - 1);
            assert(views(out@) =~= before.insert(q as int, x@));
            let v = views(out@);
            assert forall|i: int| 0 <= i < v.len() implies rest@.len() <= #[trigger] p[i] < n && v[i] == inp[p[i]] by {
                if i > q {
                    assert(v[i] == before[i - 1]);
                    assert(p[i] == pb[i - 1]);
                } else if i < q {
                    assert(v[i] == before[i]);
                    assert(p[i] == pb[i]);
                }
            }
            if q < before.len() {
                assert(!key_lt(before[q as int], x@));
                lemma_bytes_lt_order(encode_utf8(before[q as int].rule), encode_utf8(x@.rule), encode_utf8(x@.rule));
            }
            assert forall|i: int, j: int| 0 <= i < j < v.len() implies goes_before(
                #[trigger] v[i],
                p[i],
                #[trigger] v[j],
                p[j],
            ) by {
                if j < q {
                    assert(v[i] == before[i] && v[j] == before[j]);
                    assert(p[i] == pb[i] && p[j] == pb[j]);
                } else if j == q {
                    assert(v[i] == before[i]);
                } else if i > q {
                    assert(v[i] == before[i - 1] && v[j] == before[j - 1]);
                    assert(p[i] == pb[i - 1] && p[j] == pb[j - 1]);
                } else if i == q {
                    assert(v[j] == before[j - 1]);
                    assert(p[j] == pb[j - 1]);
                    let y = before[q as int];
                    let z = before[j - 1];
                    if j - 1 > q {
                        assert(goes_before(y, pb[q as int], z, pb[j - 1]));
                    }
                    lemma_bytes_lt_order(encode_utf8(x@.rule), encode_utf8(y.rule), encode_utf8(z.rule));
                    lemma_bytes_lt_order(encode_utf8(y.rule), encode_utf8(z.rule), encode_utf8(x@.rule));
                } else {
                    assert(v[i] == before[i]);
                    assert(v[j] == before[j - 1]);
                    assert(p[i] == pb[i] && p[j] == pb[j - 1]);
                }
            }
        }
    }
    proof {
        assert(sort_witness(views(out@), inp, p));
    }
    out
}

} // verus!
